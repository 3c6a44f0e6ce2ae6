use sudoku::parse::ParseError;
use sudoku::Sudoku;

fn answer() -> Vec<Vec<u8>> {
    vec![
        vec![8, 1, 2, 7, 5, 3, 6, 4, 9],
        vec![9, 4, 3, 6, 8, 2, 1, 7, 5],
        vec![6, 7, 5, 4, 9, 1, 2, 8, 3],
        vec![1, 5, 4, 2, 3, 7, 8, 9, 6],
        vec![3, 6, 9, 8, 4, 5, 7, 2, 1],
        vec![2, 8, 7, 1, 6, 9, 5, 3, 4],
        vec![5, 2, 1, 9, 7, 4, 3, 6, 8],
        vec![4, 3, 8, 5, 2, 6, 9, 1, 7],
        vec![7, 9, 6, 3, 1, 8, 4, 5, 2],
    ]
}

fn answer_table() -> String {
    [
        "┌─────────┬─────────┬─────────┐",
        "│ 8  1  2 │ 7  5  3 │ 6  4  9 │",
        "│ 9  4  3 │ 6  8  2 │ 1  7  5 │",
        "│ 6  7  5 │ 4  9  1 │ 2  8  3 │",
        "├─────────┼─────────┼─────────┤",
        "│ 1  5  4 │ 2  3  7 │ 8  9  6 │",
        "│ 3  6  9 │ 8  4  5 │ 7  2  1 │",
        "│ 2  8  7 │ 1  6  9 │ 5  3  4 │",
        "├─────────┼─────────┼─────────┤",
        "│ 5  2  1 │ 9  7  4 │ 3  6  8 │",
        "│ 4  3  8 │ 5  2  6 │ 9  1  7 │",
        "│ 7  9  6 │ 3  1  8 │ 4  5  2 │",
        "└─────────┴─────────┴─────────┘",
    ]
    .join("\n")
}

const PUZZLE_TEXT: &str = "800000000\n003600000\n070090200\n050007000\n000045700\n000100030\n001000068\n008500010\n090000400\n";

fn puzzle() -> Vec<Vec<u8>> {
    vec![
        vec![8, 0, 0, 0, 0, 0, 0, 0, 0],
        vec![0, 0, 3, 6, 0, 0, 0, 0, 0],
        vec![0, 7, 0, 0, 9, 0, 2, 0, 0],
        vec![0, 5, 0, 0, 0, 7, 0, 0, 0],
        vec![0, 0, 0, 0, 4, 5, 7, 0, 0],
        vec![0, 0, 0, 1, 0, 0, 0, 3, 0],
        vec![0, 0, 1, 0, 0, 0, 0, 6, 8],
        vec![0, 0, 8, 5, 0, 0, 0, 1, 0],
        vec![0, 9, 0, 0, 0, 0, 4, 0, 0],
    ]
}

fn digits_of(text: &str) -> Vec<Vec<u8>> {
    let digits: Vec<u8> = text.chars().filter(|ch| ch.is_ascii_digit()).map(|ch| ch as u8 - b'0').collect();
    digits.chunks(9).map(|row| row.to_vec()).collect()
}

fn error_of(text: &str) -> ParseError {
    match Sudoku::parse(text) {
        Ok(sudoku) => panic!("read {:?}", sudoku),
        Err(error) => error,
    }
}

#[test]
fn table_of_a_solved_board() {
    assert_eq!(Sudoku::from_vec(answer()).render(), answer_table());
}

#[test]
fn table_shows_empty_cells_as_zero() {
    let text = Sudoku::from_vec(puzzle()).render();
    let lines: Vec<&str> = text.split('\n').collect();
    assert_eq!(lines.len(), 13);
    assert_eq!(lines[1], "│ 8  0  0 │ 0  0  0 │ 0  0  0 │");
    assert_eq!(lines[11], "│ 0  9  0 │ 0  0  0 │ 4  0  0 │");
}

#[test]
fn table_writes_large_values_in_full() {
    let mut cells = answer();
    cells[0][0] = 10;
    cells[0][4] = 255;
    cells[0][8] = 100;
    cells[1][0] = 99;
    let text = Sudoku::from_vec(cells).render();
    let lines: Vec<&str> = text.split('\n').collect();
    assert_eq!(lines[1], "│ 10  1  2 │ 7  255  3 │ 6  4  100 │");
    assert_eq!(lines[2], "│ 99  4  3 │ 6  8  2 │ 1  7  5 │");
}

#[test]
fn no_table_without_nine_rows() {
    assert_eq!(Sudoku::from_vec(Vec::new()).render(), "Нет решения");
    let mut cells = answer();
    cells.pop();
    assert_eq!(Sudoku::from_vec(cells).render(), "Нет решения");
    let mut cells = answer();
    cells.push(vec![0; 9]);
    assert_eq!(Sudoku::from_vec(cells).render(), "Нет решения");
}

#[test]
fn no_table_with_a_row_that_is_not_nine_long() {
    let mut cells = answer();
    cells[8].pop();
    assert_eq!(Sudoku::from_vec(cells).render(), "Нет решения");
    let mut cells = answer();
    cells[0].push(1);
    assert_eq!(Sudoku::from_vec(cells).render(), "Нет решения");
}

#[test]
fn digits_of_the_table_give_the_board_back() {
    let text = Sudoku::from_vec(answer()).render();
    assert_eq!(digits_of(&text), answer());
    let text = Sudoku::from_vec(puzzle()).render();
    assert_eq!(digits_of(&text), puzzle());
}

#[test]
fn solved_puzzle_round_trips_through_its_table() {
    let solution = Sudoku::from_vec(puzzle()).solve().expect("the puzzle has a solution");
    assert_eq!(digits_of(&solution.render()), solution.0);
}

#[test]
fn parse_reads_nine_lines_of_nine_digits() {
    let sudoku = Sudoku::parse(PUZZLE_TEXT).expect("nine lines of nine digits");
    assert_eq!(sudoku.0, puzzle());
}

#[test]
fn parse_needs_no_line_feed_at_the_end() {
    let text = PUZZLE_TEXT.trim_end();
    let sudoku = Sudoku::parse(text).expect("nine lines of nine digits");
    assert_eq!(sudoku.0, puzzle());
}

#[test]
fn parse_takes_carriage_returns_before_line_feeds() {
    let text = PUZZLE_TEXT.replace('\n', "\r\n");
    let sudoku = Sudoku::parse(&text).expect("nine lines of nine digits");
    assert_eq!(sudoku.0, puzzle());
}

#[test]
fn parse_agrees_with_the_lines_of_the_text() {
    for text in [PUZZLE_TEXT.to_string(), PUZZLE_TEXT.replace('\n', "\r\n"), PUZZLE_TEXT.trim_end().to_string()] {
        let rows: Vec<Vec<u8>> = text.lines().map(|line| line.bytes().map(|b| b - b'0').collect()).collect();
        assert_eq!(Sudoku::parse(&text).expect("a board").0, rows);
    }
}

#[test]
fn eight_lines_are_a_row_count_error() {
    let text = "800000000\n003600000\n070090200\n050007000\n000045700\n000100030\n001000068\n008500010\n";
    assert_eq!(error_of(text), ParseError::RowCount);
}

#[test]
fn ten_lines_are_a_row_count_error() {
    let text = format!("{}000000000\n", PUZZLE_TEXT);
    assert_eq!(error_of(&text), ParseError::RowCount);
}

#[test]
fn empty_text_is_a_row_count_error() {
    assert_eq!(error_of(""), ParseError::RowCount);
}

#[test]
fn short_and_long_lines_are_row_length_errors() {
    assert_eq!(error_of(&PUZZLE_TEXT.replacen("800000000", "80000000", 1)), ParseError::RowLength);
    assert_eq!(error_of(&PUZZLE_TEXT.replacen("090000400", "0900004000", 1)), ParseError::RowLength);
    assert_eq!(error_of("12345678"), ParseError::RowLength);
}

#[test]
fn empty_line_is_a_row_length_error() {
    assert_eq!(error_of(&PUZZLE_TEXT.replacen("003600000\n", "003600000\n\n", 1)), ParseError::RowLength);
    assert_eq!(error_of("\n"), ParseError::RowLength);
    assert_eq!(error_of(&format!("{}\n", PUZZLE_TEXT)), ParseError::RowLength);
}

#[test]
fn other_characters_are_not_digits() {
    assert_eq!(error_of(&PUZZLE_TEXT.replacen("070090200", "07009020x", 1)), ParseError::NotADigit);
    assert_eq!(error_of(&PUZZLE_TEXT.replacen("070090200", "0700 0200", 1)), ParseError::NotADigit);
    assert_eq!(error_of(&PUZZLE_TEXT.replacen("070090200", "07009020٣", 1)), ParseError::NotADigit);
    assert_eq!(error_of(&PUZZLE_TEXT.replacen("070090200", "+70090200", 1)), ParseError::NotADigit);
    assert_eq!(error_of("│ 8  1  2 │"), ParseError::NotADigit);
}

#[test]
fn carriage_return_counts_only_before_a_line_feed() {
    assert_eq!(error_of(&PUZZLE_TEXT.replacen("070090200", "0700\r90200", 1)), ParseError::NotADigit);
    assert_eq!(error_of(&PUZZLE_TEXT.replacen("070090200\n", "070090200\r\r\n", 1)), ParseError::NotADigit);
    let text = format!("{}\r", PUZZLE_TEXT.trim_end());
    assert_eq!(error_of(&text), ParseError::NotADigit);
    assert_eq!(error_of("\r"), ParseError::NotADigit);
}

#[test]
fn stray_character_counts_before_the_length_of_its_line() {
    assert_eq!(error_of("12a\n"), ParseError::NotADigit);
    assert_eq!(error_of("1234567890a\n"), ParseError::NotADigit);
}

#[test]
fn first_line_with_an_error_decides() {
    assert_eq!(error_of("123\n12a\n"), ParseError::RowLength);
    assert_eq!(error_of("12a\n123\n"), ParseError::NotADigit);
    assert_eq!(error_of("123456789\n12a"), ParseError::NotADigit);
    assert_eq!(error_of("123456789\n123"), ParseError::RowLength);
}

#[test]
fn parsed_puzzle_is_solved_and_shown() {
    let sudoku = Sudoku::parse(PUZZLE_TEXT).expect("nine lines of nine digits");
    let solution = sudoku.solve().expect("the puzzle has a solution");
    assert_eq!(solution.render(), answer_table());
}

/// The board or the error that reading line by line with the standard
/// library gives.
fn read_by_lines(text: &str) -> Result<Vec<Vec<u8>>, ParseError> {
    let mut rows: Vec<Vec<u8>> = Vec::new();
    for line in text.lines() {
        let mut row: Vec<u8> = Vec::new();
        for piece in line.split("").filter(|piece| !piece.is_empty()) {
            match piece.parse::<u8>() {
                Ok(digit) if piece.chars().all(|ch| ch.is_ascii_digit()) => row.push(digit),
                _ => return Err(ParseError::NotADigit),
            }
        }
        if row.len() != 9 {
            return Err(ParseError::RowLength);
        }
        rows.push(row);
    }
    if rows.len() != 9 {
        return Err(ParseError::RowCount);
    }
    Ok(rows)
}

#[test]
fn parse_agrees_with_reading_line_by_line() {
    let nine = "123456789\n".repeat(9);
    let texts = [
        String::new(),
        "\n".to_string(),
        "\r".to_string(),
        "\r\n".to_string(),
        "\n\r".to_string(),
        "123456789".to_string(),
        "123456789\r".to_string(),
        "123456789\r\n".to_string(),
        "123456789\n\r".to_string(),
        "12345678\r9\n".to_string(),
        "123456789\r\r\n".to_string(),
        "1234567890\n".to_string(),
        "12345678\n".to_string(),
        "12345678x\n".to_string(),
        "x\n123\n".to_string(),
        "123\nx\n".to_string(),
        nine.clone(),
        nine.trim_end().to_string(),
        nine.replace('\n', "\r\n"),
        format!("{}\n", nine),
        format!("{}\r", nine),
        format!("{}\r\n", nine),
        format!("{}123456789", nine),
        format!("{}12345678", nine),
        format!("{}x", nine),
        format!("\n{}", nine),
        nine.replacen('5', "+", 1),
        nine.replacen('5', "-", 1),
        nine.replacen('5', "５", 1),
        nine.replacen('5', " ", 1),
        nine.replacen("9\n", "9 \n", 1),
        "123456789\n".repeat(8),
        "123456789\n".repeat(10),
    ];
    for text in texts.iter() {
        let expected = read_by_lines(text);
        match Sudoku::parse(text) {
            Ok(sudoku) => assert_eq!(Ok(sudoku.0), expected, "{:?}", text),
            Err(error) => assert_eq!(Err(error), expected, "{:?}", text),
        }
    }
}
