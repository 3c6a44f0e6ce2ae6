//! The search: fill the cells that have one candidate left, and where none
//! is left to fill, try the candidates of the cell that has the fewest.

use std::collections::HashSet;
use vstd::prelude::*;
use vstd::std_specs::hash::spec_hash_keys_iter;
use vstd::std_specs::iter::IteratorSpec;
use crate::candidates::candidates;
use crate::completion::{
    completes, count_empty, extends, has_completion, lemma_completion_survives_placing,
    lemma_completion_takes_candidate, lemma_extends_transitive, lemma_narrows_reflexive,
    lemma_narrows_transitive, lemma_place_count, lemma_place_extends, narrows, place,
};
use crate::grid::{consistent, is_full, is_grid, lemma_view_row, on_board, Board, Sudoku};
use crate::solved::{
    has_solution, keeps, lemma_full_board_completes_itself, lemma_solutions_are_completions,
    solved, solves,
};

verus! {

broadcast use {vstd::std_specs::hash::group_hash_axioms, lemma_view_row};

/// What a pass over the board knows once it has looked at the first `n`
/// cells, row by row. The board `now` has the completions of the board
/// `start` that the pass began with. While no empty cell was met, the cells
/// looked at are filled and none was written. A smallest candidate set of
/// size one means that a cell was filled in this pass; one of a larger size
/// means that none was, and the set is that of the empty cell
/// `(min_row, min_column)`.
spec fn scanned(
    start: Board,
    now: Board,
    n: int,
    min_row: int,
    min_column: int,
    min_values: Set<u8>,
) -> bool {
    &&& is_grid(now)
    &&& narrows(start, now)
    &&& count_empty(now) <= count_empty(start)
    &&& if min_row == 10 {
        &&& now == start
        &&& forall|r: int, c: int| on_board(r, c) && 9 * r + c < n ==> #[trigger] now[r][c] != 0
    } else {
        &&& on_board(min_row, min_column)
        &&& min_values.finite()
        &&& min_values.len() >= 1
        &&& if min_values.len() == 1 {
            count_empty(now) < count_empty(start)
        } else {
            &&& now == start
            &&& start[min_row][min_column] == 0
            &&& min_values == candidates(start, min_row, min_column)
        }
    }
}

/// The candidates of a cell are among the nine digits.
proof fn lemma_candidates_finite(b: Board, r: int, c: int)
    ensures
        candidates(b, r, c).finite(),
{
    let digits = set![1u8, 2u8, 3u8, 4u8, 5u8, 6u8, 7u8, 8u8, 9u8];
    assert(candidates(b, r, c).subset_of(digits));
    vstd::set_lib::lemma_set_subset_finite(digits, candidates(b, r, c));
}

/// The one value of a set that holds exactly one.
fn only_value(values: &HashSet<u8>) -> (value: u8)
    requires
        values@.finite(),
        values@.len() == 1,
    ensures
        values@ == set![value],
{
    let mut value: u8 = 0;
    proof {
        let items = spec_hash_keys_iter(values).remaining();
        assert forall|k: int| 0 <= k < items.len() implies values@.contains(*#[trigger] items[k]) by {
            assert(items.unref()[k] == *items[k]);
            assert(items.unref().to_set().contains(items.unref()[k]));
        }
    }
    for v in it: values.iter()
        invariant
            it.seq().len() == 1,
            forall|k: int| 0 <= k < it.seq().len() ==> values@.contains(*#[trigger] it.seq()[k]),
            it.index() > 0 ==> values@.contains(value),
    {
        value = *v;
    }
    proof {
        let rest = values@.remove(value);
        assert(rest.len() == 0);
        rest.lemma_len0_is_empty();
        assert(values@ =~= set![value]);
    }
    value
}

impl Sudoku {
    /// Looks for a way to fill the empty cells. The board it returns keeps
    /// every filled cell and holds, in each cell that was empty, a digit
    /// that no cell in the same row, column or block repeats; `None` says
    /// that there is no such board. Where the filled cells do not
    /// contradict each other, the board returned is solved, and `None` says
    /// that the puzzle has no solution. A board without empty cells comes
    /// back as it is.
    pub fn solve(&self) -> (solution: Option<Sudoku>)
        requires
            is_grid(self@),
        ensures
            match solution {
                Some(s) => {
                    &&& completes(self@, s@)
                    &&& keeps(self@, s@)
                    &&& solved(s@) <==> consistent(self@)
                },
                None => !has_completion(self@) && !has_solution(self@),
            },
            is_full(self@) ==> (solution matches Some(s) && s@ == self@),
    {
        let mut solution = self.clone();
        if solution.solve_helper() {
            proof {
                lemma_solutions_are_completions(self@, solution@);
                if is_full(self@) {
                    lemma_full_board_completes_itself(self@, solution@);
                }
            }
            return Some(solution);
        }
        proof {
            assert forall|s: Board| !solves(self@, s) by {
                lemma_solutions_are_completions(self@, s);
            }
            if is_full(self@) {
                lemma_full_board_completes_itself(self@, self@);
            }
        }
        None
    }

    /// The search on the board itself. Cells with a single candidate are
    /// filled as they are met, pass after pass, until a pass fills none; then
    /// each candidate of the first cell with the fewest candidates is tried
    /// on a copy. `true` says that the board is now full; `false`, that there
    /// was no way to fill it, and leaves the board with the cells filled on
    /// the way.
    fn solve_helper(&mut self) -> (solved: bool)
        requires
            is_grid(old(self)@),
        ensures
            extends(old(self)@, final(self)@),
            solved ==> is_full(final(self)@),
            !solved ==> !has_completion(old(self)@),
        decreases count_empty(old(self)@),
    {
        let mut min_row: usize = 10;
        let mut min_column: usize = 10;
        let mut min_values: HashSet<u8> = HashSet::new();

        proof {
            lemma_narrows_reflexive(self@);
        }
        loop
            invariant_except_break
                is_grid(self@),
                narrows(old(self)@, self@),
                count_empty(self@) <= count_empty(old(self)@),
            ensures
                is_grid(self@),
                narrows(old(self)@, self@),
                count_empty(self@) <= count_empty(old(self)@),
                min_row < 9,
                min_column < 9,
                self@[min_row as int][min_column as int] == 0,
                min_values@ == candidates(self@, min_row as int, min_column as int),
            decreases count_empty(self@),
        {
            min_row = 10;
            let ghost start = self@;
            for r in 0usize..9
                invariant
                    narrows(old(self)@, start),
                    count_empty(start) <= count_empty(old(self)@),
                    scanned(start, self@, 9 * r, min_row as int, min_column as int, min_values@),
            {
                for c in 0usize..9
                    invariant
                        r < 9,
                        narrows(old(self)@, start),
                        count_empty(start) <= count_empty(old(self)@),
                        scanned(
                            start,
                            self@,
                            9 * r + c,
                            min_row as int,
                            min_column as int,
                            min_values@,
                        ),
                {
                    if self.0[r][c] == 0 {
                        let ghost before = self@;
                        let possible_values = self.find_possible_values(r, c);
                        let possible_values_count = possible_values.len();
                        proof {
                            lemma_candidates_finite(before, r as int, c as int);
                        }

                        if possible_values_count == 0 {
                            proof {
                                possible_values@.lemma_len0_is_empty();
                                assert forall|s: Board| !completes(old(self)@, s) by {
                                    if completes(old(self)@, s) {
                                        assert(completes(start, s));
                                        assert(completes(before, s));
                                        lemma_completion_takes_candidate(
                                            before,
                                            s,
                                            r as int,
                                            c as int,
                                        );
                                    }
                                }
                                lemma_extends_transitive(old(self)@, start, before);
                            }
                            return false;
                        }
                        if possible_values_count == 1 {
                            let value = only_value(&possible_values);
                            self.0[r][c] = value;
                            proof {
                                assert(candidates(before, r as int, c as int).contains(value));
                                assert(self@ =~~= place(before, r as int, c as int, value));
                                lemma_place_extends(before, r as int, c as int, value);
                                lemma_place_count(before, r as int, c as int, value);
                                lemma_extends_transitive(start, before, self@);
                                assert forall|s: Board| #[trigger]
                                    completes(start, s) implies completes(self@, s) by {
                                    assert(completes(before, s));
                                    lemma_completion_takes_candidate(before, s, r as int, c as int);
                                    lemma_completion_survives_placing(
                                        before,
                                        s,
                                        r as int,
                                        c as int,
                                    );
                                }
                            }
                        }
                        if min_row > 9 || possible_values_count < min_values.len() {
                            min_row = r;
                            min_column = c;
                            min_values = possible_values;
                        }
                    }
                }
            }

            if min_row == 10 {
                proof {
                    lemma_extends_transitive(old(self)@, start, self@);
                    assert forall|r: int, c: int| on_board(r, c) implies #[trigger] self@[r][c]
                        != 0 by {}
                }
                return true;
            } else if min_values.len() > 1 {
                proof {
                    lemma_narrows_transitive(old(self)@, start, self@);
                }
                break ;
            }
            proof {
                lemma_narrows_transitive(old(self)@, start, self@);
            }
        }

        proof {
            let items = spec_hash_keys_iter(&min_values).remaining();
            assert forall|v: u8| min_values@.contains(v) implies exists|k: int|
                0 <= k < items.len() && *#[trigger] items[k] == v by {
                assert(items.unref().to_set().contains(v));
                let k = choose|k: int| 0 <= k < items.unref().len() && items.unref()[k] == v;
                assert(*items[k] == v);
            }
            assert forall|k: int| 0 <= k < items.len() implies min_values@.contains(
                *#[trigger] items[k],
            ) by {
                assert(items.unref()[k] == *items[k]);
                assert(items.unref().to_set().contains(items.unref()[k]));
            }
        }
        let ghost branching = self@;
        for v in it: min_values.iter()
            invariant
                self@ == branching,
                is_grid(branching),
                narrows(old(self)@, branching),
                count_empty(branching) <= count_empty(old(self)@),
                min_row < 9,
                min_column < 9,
                branching[min_row as int][min_column as int] == 0,
                min_values@ == candidates(branching, min_row as int, min_column as int),
                forall|v: u8|
                    min_values@.contains(v) ==> exists|k: int|
                        0 <= k < it.seq().len() && *#[trigger] it.seq()[k] == v,
                forall|k: int|
                    0 <= k < it.seq().len() ==> min_values@.contains(*#[trigger] it.seq()[k]),
                forall|k: int|
                    0 <= k < it.index() ==> !has_completion(
                        place(branching, min_row as int, min_column as int, *#[trigger] it.seq()[k]),
                    ),
        {
            let mut solution_copy = self.clone();
            solution_copy.0[min_row][min_column] = *v;
            proof {
                assert(solution_copy@ =~~= place(
                    branching,
                    min_row as int,
                    min_column as int,
                    *v,
                ));
                lemma_place_extends(branching, min_row as int, min_column as int, *v);
                lemma_place_count(branching, min_row as int, min_column as int, *v);
            }
            let ghost placed = solution_copy@;
            if solution_copy.solve_helper() {
                self.0 = solution_copy.0;
                proof {
                    assert(self@ =~~= solution_copy@);
                    lemma_extends_transitive(branching, placed, self@);
                    lemma_extends_transitive(old(self)@, branching, self@);
                }
                return true;
            }
        }

        proof {
            assert forall|s: Board| !completes(old(self)@, s) by {
                if completes(old(self)@, s) {
                    assert(completes(branching, s));
                    lemma_completion_takes_candidate(
                        branching,
                        s,
                        min_row as int,
                        min_column as int,
                    );
                    lemma_completion_survives_placing(
                        branching,
                        s,
                        min_row as int,
                        min_column as int,
                    );
                }
            }
        }
        false
    }
}

} // verus!
