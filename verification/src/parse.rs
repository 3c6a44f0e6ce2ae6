//! The board as it is written in a text: nine lines of nine digits.

use vstd::prelude::*;
use crate::grid::{is_grid, on_board, Board, Sudoku};
use crate::digit::{digit_value, is_digit};

verus! {

broadcast use vstd::string::group_string_axioms;

/// Why a text is not a board.
#[derive(Debug, Clone, Copy, PartialEq, Eq)]
pub enum ParseError {
    /// A line holds a character that is no decimal digit.
    NotADigit,
    /// A line of digits is not nine digits long.
    RowLength,
    /// The lines are well formed, but there are not nine of them.
    RowCount,
}

/// The number of characters before the first line feed, or the length of
/// the text where it holds none.
pub open spec fn line_length(text: Seq<char>) -> nat
    decreases text.len(),
{
    if text.len() == 0 || text[0] == '\n' {
        0
    } else {
        1 + line_length(text.drop_first())
    }
}

/// The line without the carriage return at its end, if it has one.
pub open spec fn without_cr(line: Seq<char>) -> Seq<char> {
    if line.len() > 0 && line.last() == '\r' {
        line.drop_last()
    } else {
        line
    }
}

/// The lines of a text. A line ends at a line feed, or at a carriage return
/// that a line feed follows; what stands after the last line feed is a line
/// too, unless it is empty, and keeps a carriage return at its end.
pub open spec fn lines_of(text: Seq<char>) -> Seq<Seq<char>>
    decreases text.len(),
{
    if text.len() == 0 {
        Seq::empty()
    } else {
        let n = line_length(text) as int;
        if n >= text.len() {
            seq![text]
        } else {
            seq![without_cr(text.take(n))] + lines_of(text.skip(n + 1))
        }
    }
}

/// Every character of the line is a decimal digit.
pub open spec fn all_digits(line: Seq<char>) -> bool {
    forall|i: int| 0 <= i < line.len() ==> is_digit(#[trigger] line[i])
}

/// What is wrong with a line, if anything: a character that is no digit
/// counts before the length.
pub open spec fn row_error(line: Seq<char>) -> Option<ParseError> {
    if !all_digits(line) {
        Some(ParseError::NotADigit)
    } else if line.len() != 9 {
        Some(ParseError::RowLength)
    } else {
        None
    }
}

/// What is wrong with the first line that has something wrong.
pub open spec fn first_error(lines: Seq<Seq<char>>) -> Option<ParseError>
    decreases lines.len(),
{
    if lines.len() == 0 {
        None
    } else {
        match first_error(lines.drop_last()) {
            Some(e) => Some(e),
            None => row_error(lines.last()),
        }
    }
}

/// The values of a line of digits.
pub open spec fn row_digits(line: Seq<char>) -> Seq<u8> {
    line.map_values(|ch: char| digit_value(ch))
}

/// The board that a text holds, or the reason why it holds none: the error
/// of the first line that has one, and where no line has one, the number of
/// lines if it is not nine.
pub open spec fn parsed(text: Seq<char>) -> Result<Board, ParseError> {
    let lines = lines_of(text);
    match first_error(lines) {
        Some(e) => Err(e),
        None => if lines.len() != 9 {
            Err(ParseError::RowCount)
        } else {
            Ok(lines.map_values(|line: Seq<char>| row_digits(line)))
        },
    }
}

/// The first line of a text ends where `line_length` says: no line feed
/// stands before that place, and one stands there unless the text is over.
proof fn lemma_line_length(text: Seq<char>)
    ensures
        line_length(text) <= text.len(),
        forall|j: int| 0 <= j < line_length(text) ==> text[j] != '\n',
        line_length(text) < text.len() ==> text[line_length(text) as int] == '\n',
    decreases text.len(),
{
    if !(text.len() == 0 || text[0] == '\n') {
        let rest = text.drop_first();
        lemma_line_length(rest);
        assert forall|j: int| 0 <= j < line_length(text) implies text[j] != '\n' by {
            if j > 0 {
                assert(rest[j - 1] == text[j]);
            }
        }
        if line_length(text) < text.len() {
            assert(rest[line_length(rest) as int] == text[line_length(text) as int]);
        }
    }
}

/// A character of the first line that is not the carriage return of its
/// line ending stands in the line at its own place.
proof fn lemma_char_in_first_line(text: Seq<char>, k: int)
    requires
        0 <= k < text.len(),
        forall|j: int| 0 <= j <= k ==> text[j] != '\n',
        !(text[k] == '\r' && k + 1 < text.len() && text[k + 1] == '\n'),
    ensures
        lines_of(text).len() > 0,
        k < lines_of(text)[0].len(),
        lines_of(text)[0][k] == text[k],
{
    lemma_line_length(text);
    let n = line_length(text) as int;
    if n <= k {
        assert(text[n] == '\n');
    }
}

/// An error stays the first one, whatever lines follow.
proof fn lemma_first_error_stays(lines: Seq<Seq<char>>, more: Seq<Seq<char>>)
    requires
        first_error(lines) is Some,
    ensures
        first_error(lines + more) == first_error(lines),
    decreases more.len(),
{
    if more.len() == 0 {
        assert(lines + more =~= lines);
    } else {
        assert((lines + more).drop_last() =~= lines + more.drop_last());
        lemma_first_error_stays(lines, more.drop_last());
    }
}

/// Where the lines read so far are in order, a character that is no digit
/// makes its line the first one with an error.
proof fn lemma_stray_character(text: Seq<char>, done: Seq<Seq<char>>, start: int, k: int)
    requires
        0 <= start <= k < text.len(),
        lines_of(text) == done + lines_of(text.skip(start)),
        first_error(done) is None,
        forall|j: int| start <= j <= k ==> text[j] != '\n',
        !is_digit(text[k]),
        !(text[k] == '\r' && k + 1 < text.len() && text[k + 1] == '\n'),
    ensures
        parsed(text) == Err::<Board, ParseError>(ParseError::NotADigit),
{
    let rest = text.skip(start);
    lemma_char_in_first_line(rest, k - start);
    let line = lines_of(rest)[0];
    assert(!is_digit(line[k - start]));
    assert(row_error(line) == Some(ParseError::NotADigit));
    let head = done.push(line);
    assert(head.drop_last() =~= done);
    assert(first_error(head) == Some(ParseError::NotADigit));
    assert(lines_of(text) =~= head + lines_of(rest).skip(1));
    lemma_first_error_stays(head, lines_of(rest).skip(1));
}

/// Where the lines read so far are in order, the characters from `start`
/// up to a line feed at `end` are the next line.
proof fn lemma_line_read(text: Seq<char>, done: Seq<Seq<char>>, start: int, end: int)
    requires
        0 <= start <= end < text.len(),
        lines_of(text) == done + lines_of(text.skip(start)),
        forall|j: int| start <= j < end ==> text[j] != '\n',
        text[end] == '\n',
    ensures
        lines_of(text) == done.push(without_cr(text.subrange(start, end))) + lines_of(
            text.skip(end + 1),
        ),
{
    let rest = text.skip(start);
    lemma_line_length(rest);
    let n = line_length(rest) as int;
    if n < end - start {
        assert(rest[n] == text[start + n]);
    }
    if n > end - start {
        assert(rest[end - start] == '\n');
    }
    assert(rest.take(n) =~= text.subrange(start, end));
    assert(rest.skip(n + 1) =~= text.skip(end + 1));
    assert(done + (seq![without_cr(text.subrange(start, end))] + lines_of(text.skip(end + 1)))
        =~= done.push(without_cr(text.subrange(start, end))) + lines_of(text.skip(end + 1)));
}

/// Where the lines read so far are in order and no line feed follows,
/// what is left of the text is the last line, if anything is left.
proof fn lemma_last_line_read(text: Seq<char>, done: Seq<Seq<char>>, start: int)
    requires
        0 <= start <= text.len(),
        lines_of(text) == done + lines_of(text.skip(start)),
        forall|j: int| start <= j < text.len() ==> text[j] != '\n',
    ensures
        lines_of(text) == if start < text.len() {
            done.push(text.skip(start))
        } else {
            done
        },
{
    let rest = text.skip(start);
    lemma_line_length(rest);
    let n = line_length(rest) as int;
    if n < rest.len() {
        assert(rest[n] == text[start + n]);
    }
    if start < text.len() {
        assert(done + seq![rest] =~= done.push(rest));
    } else {
        assert(done + Seq::<Seq<char>>::empty() =~= done);
    }
}

/// The error of the lines with one more line, where the lines before it
/// have none, is the error of that line.
proof fn lemma_first_error_push(done: Seq<Seq<char>>, line: Seq<char>)
    requires
        first_error(done) is None,
    ensures
        first_error(done.push(line)) == row_error(line),
{
    assert(done.push(line).drop_last() =~= done);
    assert(done.push(line).last() == line);
}

/// A line that was read to its end holds digits only, as many as the row
/// holds values, and all that can be wrong with it is their number.
proof fn lemma_line_checked(line: Seq<char>, row: Seq<u8>, pending_cr: bool)
    requires
        line_so_far(line, row, pending_cr),
    ensures
        row == row_digits(without_cr(line)),
        row.len() == without_cr(line).len(),
        !pending_cr ==> without_cr(line) == line,
        row_error(without_cr(line)) == if row.len() != 9 {
            Some(ParseError::RowLength)
        } else {
            None
        },
        forall|i: int| 0 <= i < row.len() ==> #[trigger] row[i] <= 9,
{
    let whole = without_cr(line);
    if !pending_cr && line.len() > 0 {
        assert(is_digit(line[line.len() - 1]));
    }
    assert forall|i: int| 0 <= i < row.len() implies #[trigger] row[i] <= 9 by {
        assert(is_digit(whole[i]));
    }
}

impl Sudoku {
    /// Reads a board from a text of nine lines of nine digits each, `0` for
    /// an empty cell. Says what is wrong with the first line that is not
    /// nine digits, and otherwise whether the lines are nine.
    pub fn parse(text: &str) -> (outcome: Result<Sudoku, ParseError>)
        ensures
            match outcome {
                Ok(sudoku) => {
                    &&& parsed(text@) == Ok::<Board, ParseError>(sudoku@)
                    &&& is_grid(sudoku@)
                    &&& forall|r: int, c: int| on_board(r, c) ==> #[trigger] sudoku@[r][c] <= 9
                },
                Err(error) => parsed(text@) == Err::<Board, ParseError>(error),
            },
    {
        let mut rows: Vec<Vec<u8>> = Vec::new();
        let mut row: Vec<u8> = Vec::new();
        let mut pending_cr = false;
        let ghost mut done: Seq<Seq<char>> = Seq::empty();
        let ghost mut start: int = 0;
        proof {
            assert(text@.skip(0) =~= text@);
            assert(done + lines_of(text@) =~= lines_of(text@));
            assert(text@.subrange(0, 0) =~= Seq::<char>::empty());
            assert(row@ =~= row_digits(Seq::<char>::empty()));
        }
        for ch in it: text.chars()
            invariant
                it.seq() == text@,
                0 <= start <= it.index(),
                lines_of(text@) == done + lines_of(text@.skip(start)),
                forall|j: int| start <= j < it.index() ==> text@[j] != '\n',
                first_error(done) is None,
                reads(rows, done),
                line_so_far(text@.subrange(start, it.index()), row@, pending_cr),
        {
            let ghost at = it.index();
            let ghost line = text@.subrange(start, at);
            assert(text@.subrange(start, at + 1) =~= line.push(ch));
            assert(ch == text@[at]);
            if ch == '\n' {
                proof {
                    lemma_line_read(text@, done, start, at);
                    lemma_line_checked(line, row@, pending_cr);
                    lemma_first_error_push(done, without_cr(line));
                }
                if row.len() != 9 {
                    proof {
                        lemma_first_error_stays(
                            done.push(without_cr(line)),
                            lines_of(text@.skip(at + 1)),
                        );
                    }
                    return Err(ParseError::RowLength);
                }
                let ghost rows_before = rows;
                rows.push(row);
                row = Vec::new();
                pending_cr = false;
                proof {
                    lemma_reads_push(rows_before, rows, done, without_cr(line));
                    done = done.push(without_cr(line));
                    start = at + 1;
                    assert(text@.subrange(start, at + 1) =~= Seq::<char>::empty());
                    assert(row@ =~= row_digits(Seq::<char>::empty()));
                }
            } else if pending_cr {
                proof {
                    lemma_stray_character(text@, done, start, at - 1);
                }
                return Err(ParseError::NotADigit);
            } else if ch == '\r' {
                pending_cr = true;
                proof {
                    assert(line.push(ch).drop_last() =~= line);
                }
            } else if ch >= '0' && ch <= '9' {
                row.push(ch as u8 - '0' as u8);
                proof {
                    assert(row@ =~= row_digits(line.push(ch)));
                }
            } else {
                proof {
                    lemma_stray_character(text@, done, start, at);
                }
                return Err(ParseError::NotADigit);
            }
        }
        proof {
            lemma_last_line_read(text@, done, start);
        }
        if pending_cr {
            proof {
                lemma_stray_character(text@, done, start, text@.len() - 1);
            }
            return Err(ParseError::NotADigit);
        }
        if row.len() != 0 {
            let ghost line = text@.skip(start);
            proof {
                assert(line =~= text@.subrange(start, text@.len() as int));
                lemma_line_checked(line, row@, pending_cr);
                lemma_first_error_push(done, line);
            }
            if row.len() != 9 {
                return Err(ParseError::RowLength);
            }
            let ghost rows_before = rows;
            rows.push(row);
            proof {
                lemma_reads_push(rows_before, rows, done, line);
                done = done.push(line);
            }
        } else {
            assert(text@.subrange(start, text@.len() as int).len() == 0);
        }
        if rows.len() != 9 {
            return Err(ParseError::RowCount);
        }
        let sudoku = Sudoku::from_vec(rows);
        proof {
            assert(sudoku@ =~= done.map_values(|line: Seq<char>| row_digits(line)));
            assert forall|r: int| 0 <= r < 9 implies (#[trigger] sudoku@[r]) == row_digits(done[r])
                && row_error(done[r]) is None by {
                assert(sudoku.0@[r]@ == row_digits(done[r]));
            }
            assert forall|r: int, c: int| on_board(r, c) implies #[trigger] sudoku@[r][c] <= 9 by {
                assert(sudoku@[r] == row_digits(done[r]));
                assert(is_digit(done[r][c]));
            }
        }
        Ok(sudoku)
    }
}

/// The rows hold the digits of the lines, and every line is nine digits.
spec fn reads(rows: Vec<Vec<u8>>, lines: Seq<Seq<char>>) -> bool {
    &&& rows@.len() == lines.len()
    &&& forall|k: int|
        0 <= k < lines.len() ==> (#[trigger] rows@[k])@ == row_digits(lines[k]) && row_error(
            lines[k],
        ) is None
}

/// One more line that is nine digits, and the row of its values.
proof fn lemma_reads_push(
    before: Vec<Vec<u8>>,
    after: Vec<Vec<u8>>,
    lines: Seq<Seq<char>>,
    line: Seq<char>,
)
    requires
        reads(before, lines),
        after@.len() == before@.len() + 1,
        forall|k: int| 0 <= k < before@.len() ==> after@[k] == before@[k],
        after@[before@.len() as int]@ == row_digits(line),
        row_error(line) is None,
    ensures
        reads(after, lines.push(line)),
{
    assert forall|k: int| 0 <= k < lines.len() + 1 implies (#[trigger] after@[k])@ == row_digits(
        lines.push(line)[k],
    ) && row_error(lines.push(line)[k]) is None by {
        if k < lines.len() {
            assert(before@[k]@ == row_digits(lines[k]));
        }
    }
}

/// `row` holds the digits of the line as far as it was read. A carriage
/// return at its end is held back until the next character shows whether
/// it belongs to the line ending.
spec fn line_so_far(line: Seq<char>, row: Seq<u8>, pending_cr: bool) -> bool {
    if pending_cr {
        &&& line.len() > 0
        &&& line.last() == '\r'
        &&& all_digits(line.drop_last())
        &&& row == row_digits(line.drop_last())
    } else {
        &&& all_digits(line)
        &&& row == row_digits(line)
    }
}

} // verus!
