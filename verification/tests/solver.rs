use sudoku::Sudoku;

fn puzzle() -> Vec<Vec<u8>> {
    vec![
        vec![8, 0, 0, 0, 0, 0, 0, 0, 0],
        vec![0, 0, 3, 6, 0, 0, 0, 0, 0],
        vec![0, 7, 0, 0, 9, 0, 2, 0, 0],
        vec![0, 5, 0, 0, 0, 7, 0, 0, 0],
        vec![0, 0, 0, 0, 4, 5, 7, 0, 0],
        vec![0, 0, 0, 1, 0, 0, 0, 3, 0],
        vec![0, 0, 1, 0, 0, 0, 0, 6, 8],
        vec![0, 0, 8, 5, 0, 0, 0, 1, 0],
        vec![0, 9, 0, 0, 0, 0, 4, 0, 0],
    ]
}

fn answer() -> Vec<Vec<u8>> {
    vec![
        vec![8, 1, 2, 7, 5, 3, 6, 4, 9],
        vec![9, 4, 3, 6, 8, 2, 1, 7, 5],
        vec![6, 7, 5, 4, 9, 1, 2, 8, 3],
        vec![1, 5, 4, 2, 3, 7, 8, 9, 6],
        vec![3, 6, 9, 8, 4, 5, 7, 2, 1],
        vec![2, 8, 7, 1, 6, 9, 5, 3, 4],
        vec![5, 2, 1, 9, 7, 4, 3, 6, 8],
        vec![4, 3, 8, 5, 2, 6, 9, 1, 7],
        vec![7, 9, 6, 3, 1, 8, 4, 5, 2],
    ]
}

fn is_permutation(unit: &[u8]) -> bool {
    let mut seen = [false; 10];
    for &d in unit {
        if d < 1 || d > 9 || seen[d as usize] {
            return false;
        }
        seen[d as usize] = true;
    }
    unit.len() == 9
}

fn is_solved(cells: &Vec<Vec<u8>>) -> bool {
    if cells.len() != 9 || cells.iter().any(|row| row.len() != 9) {
        return false;
    }
    for k in 0..9 {
        let column: Vec<u8> = (0..9).map(|r| cells[r][k]).collect();
        let block: Vec<u8> = (0..9).map(|i| cells[3 * (k / 3) + i / 3][3 * (k % 3) + i % 3]).collect();
        if !is_permutation(&cells[k]) || !is_permutation(&column) || !is_permutation(&block) {
            return false;
        }
    }
    true
}

#[test]
fn solve() {
    let sudoku: Sudoku = Sudoku::from_vec(vec![
        vec![8, 0, 0, 0, 0, 0, 0, 0, 0],
        vec![0, 0, 3, 6, 0, 0, 0, 0, 0],
        vec![0, 7, 0, 0, 9, 0, 2, 0, 0],
        vec![0, 5, 0, 0, 0, 7, 0, 0, 0],
        vec![0, 0, 0, 0, 4, 5, 7, 0, 0],
        vec![0, 0, 0, 1, 0, 0, 0, 3, 0],
        vec![0, 0, 1, 0, 0, 0, 0, 6, 8],
        vec![0, 0, 8, 5, 0, 0, 0, 1, 0],
        vec![0, 9, 0, 0, 0, 0, 4, 0, 0],
    ]);

    assert!(sudoku.solve().is_some());
}

#[test]
fn from_vec_keeps_the_rows() {
    let sudoku = Sudoku::from_vec(puzzle());
    assert_eq!(sudoku.0, puzzle());
    let ragged = Sudoku::from_vec(vec![vec![1, 2], vec![]]);
    assert_eq!(ragged.0, vec![vec![1u8, 2], vec![]]);
}

#[test]
fn clone_copies_every_cell() {
    let sudoku = Sudoku::from_vec(puzzle());
    let copy = sudoku.clone();
    assert_eq!(copy.0, puzzle());
}

#[test]
fn hard_puzzle_is_solved() {
    let solution = Sudoku::from_vec(puzzle()).solve().expect("the puzzle has a solution");
    assert!(is_solved(&solution.0));
    assert_eq!(solution.0, answer());
}

#[test]
fn solution_keeps_every_clue() {
    let given = puzzle();
    let solution = Sudoku::from_vec(puzzle()).solve().expect("the puzzle has a solution");
    for r in 0..9 {
        for c in 0..9 {
            if given[r][c] != 0 {
                assert_eq!(solution.0[r][c], given[r][c]);
            }
        }
    }
}

#[test]
fn solve_leaves_its_input_alone() {
    let sudoku = Sudoku::from_vec(puzzle());
    let _ = sudoku.solve();
    assert_eq!(sudoku.0, puzzle());
}

#[test]
fn solved_board_comes_back_unchanged() {
    let solution = Sudoku::from_vec(answer()).solve().expect("a solved board solves itself");
    assert_eq!(solution.0, answer());
}

#[test]
fn full_board_is_returned_without_a_check() {
    let ones = vec![vec![1u8; 9]; 9];
    let solution = Sudoku::from_vec(ones.clone()).solve().expect("nothing is left to fill");
    assert_eq!(solution.0, ones);
}

#[test]
fn empty_board_is_filled() {
    let solution = Sudoku::from_vec(vec![vec![0u8; 9]; 9]).solve().expect("an empty board can be filled");
    assert!(is_solved(&solution.0));
}

#[test]
fn forced_cells_alone_finish_a_board() {
    let mut cells = answer();
    cells[0][0] = 0;
    cells[4][4] = 0;
    cells[8][8] = 0;
    cells[8][0] = 0;
    let solution = Sudoku::from_vec(cells).solve().expect("every empty cell is forced");
    assert_eq!(solution.0, answer());
}

#[test]
fn repeated_digit_in_a_row_has_no_solution() {
    let mut cells = vec![vec![0u8; 9]; 9];
    cells[0] = vec![5, 5, 1, 2, 3, 4, 6, 7, 0];
    cells[3][8] = 8;
    cells[6][8] = 9;
    assert!(Sudoku::from_vec(cells).solve().is_none());
}

#[test]
fn cell_without_candidates_has_no_solution() {
    let mut cells = vec![vec![0u8; 9]; 9];
    cells[0] = vec![0, 1, 2, 3, 4, 5, 6, 7, 8];
    cells[1][0] = 9;
    assert!(Sudoku::from_vec(cells).solve().is_none());
}

#[test]
fn contradiction_found_after_a_guess_has_no_solution() {
    let mut cells = answer();
    cells[0][0] = 0;
    cells[0][1] = 0;
    cells[1][0] = 0;
    cells[1][1] = 0;
    cells[0][2] = 4;
    assert!(Sudoku::from_vec(cells).solve().is_none());
}

#[test]
fn possible_values_leave_out_row_column_and_block() {
    let sudoku = Sudoku::from_vec(puzzle());
    let values = sudoku.find_possible_values(0, 1);
    let mut sorted: Vec<u8> = values.into_iter().collect();
    sorted.sort();
    assert_eq!(sorted, vec![1, 2, 4, 6]);
    let values = sudoku.find_possible_values(4, 3);
    let mut sorted: Vec<u8> = values.into_iter().collect();
    sorted.sort();
    assert_eq!(sorted, vec![2, 3, 8, 9]);
    let values = sudoku.find_possible_values(8, 8);
    let mut sorted: Vec<u8> = values.into_iter().collect();
    sorted.sort();
    assert_eq!(sorted, vec![2, 3, 5, 7]);
}

#[test]
fn possible_values_may_be_none() {
    let mut cells = vec![vec![0u8; 9]; 9];
    cells[0] = vec![0, 1, 2, 3, 4, 5, 6, 7, 8];
    cells[1][0] = 9;
    let sudoku = Sudoku::from_vec(cells);
    assert!(sudoku.find_possible_values(0, 0).is_empty());
}
