//! The board as a table of text, and the way back from the text to the
//! board.

use vstd::prelude::*;
use vstd::string::StringExecFns;
use crate::digit::{digit_char, digit_value, is_digit, lemma_digit_char};
use crate::grid::{is_grid, lemma_view_row, on_board, Board, Sudoku};

verus! {

broadcast use lemma_view_row;

/// The decimal digits of `value`, without leading zeros.
#[verifier::opaque]
pub open spec fn decimal(value: u8) -> Seq<char> {
    if value < 10 {
        seq![digit_char(value)]
    } else if value < 100 {
        seq![digit_char(value / 10), digit_char(value % 10)]
    } else {
        seq![digit_char(value / 100), digit_char(value / 10 % 10), digit_char(value % 10)]
    }
}

/// A cell of the table: its value between two spaces.
pub open spec fn cell_text(value: u8) -> Seq<char> {
    " "@ + decimal(value) + " "@
}

/// A row of the table: nine cells in three groups, with a bar before, between
/// and after the groups.
pub open spec fn line_text(row: Seq<u8>) -> Seq<char> {
    "│"@ + cell_text(row[0]) + cell_text(row[1]) + cell_text(row[2]) + "│"@ + cell_text(row[3])
        + cell_text(row[4]) + cell_text(row[5]) + "│"@ + cell_text(row[6]) + cell_text(row[7])
        + cell_text(row[8]) + "│"@
}

/// Nine lines in a frame, with a rule after the third and after the sixth.
/// The lines of the text are separated by line feeds, and none follows the
/// last one.
pub open spec fn framed(lines: Seq<Seq<char>>) -> Seq<char> {
    "┌─────────┬─────────┬─────────┐"@ + "\n"@ + lines[0] + "\n"@ + lines[1] + "\n"@ + lines[2]
        + "\n"@ + "├─────────┼─────────┼─────────┤"@ + "\n"@ + lines[3] + "\n"@ + lines[4] + "\n"@
        + lines[5] + "\n"@ + "├─────────┼─────────┼─────────┤"@ + "\n"@ + lines[6] + "\n"@
        + lines[7] + "\n"@ + lines[8] + "\n"@ + "└─────────┴─────────┴─────────┘"@
}

/// The table of a 9×9 board: its nine rows in the frame.
pub open spec fn table_text(b: Board) -> Seq<char> {
    framed(Seq::new(9, |r: int| line_text(b[r])))
}

/// What is shown in place of a table.
pub open spec fn no_solution_text() -> Seq<char> {
    "Нет решения"@
}

/// The text of a board: its table where it has nine rows of nine cells,
/// and the words that say that there is no solution where it has not.
pub open spec fn rendering(b: Board) -> Seq<char> {
    if is_grid(b) {
        table_text(b)
    } else {
        no_solution_text()
    }
}

/// The values of the decimal digits of a text, in the order in which they
/// occur; every other character is passed over.
pub open spec fn digits_in(text: Seq<char>) -> Seq<u8>
    decreases text.len(),
{
    if text.len() == 0 {
        Seq::empty()
    } else if is_digit(text.last()) {
        digits_in(text.drop_last()).push(digit_value(text.last()))
    } else {
        digits_in(text.drop_last())
    }
}

/// 81 values as a board, nine to a row.
pub open spec fn rows_of_nine(values: Seq<u8>) -> Board {
    Seq::new(9, |r: int| values.subrange(9 * r, 9 * r + 9))
}

/// The digits of two texts in a row are those of the first, then those of
/// the second.
pub proof fn lemma_digits_in_concat(a: Seq<char>, b: Seq<char>)
    ensures
        digits_in(a + b) == digits_in(a) + digits_in(b),
    decreases b.len(),
{
    if b.len() == 0 {
        assert(a + b =~= a);
        assert(digits_in(a) + digits_in(b) =~= digits_in(a));
    } else {
        assert((a + b).drop_last() =~= a + b.drop_last());
        assert((a + b).last() == b.last());
        lemma_digits_in_concat(a, b.drop_last());
        assert(digits_in(a + b) =~= digits_in(a) + digits_in(b));
    }
}

/// A text without digits yields none.
proof fn lemma_no_digits(text: Seq<char>)
    requires
        forall|i: int| 0 <= i < text.len() ==> !is_digit(#[trigger] text[i]),
    ensures
        digits_in(text) == Seq::<u8>::empty(),
    decreases text.len(),
{
    if text.len() > 0 {
        assert(!is_digit(text[text.len() - 1]));
        lemma_no_digits(text.drop_last());
    }
}

/// The frame, the bars and the spaces hold no digit.
proof fn lemma_frame_has_no_digits()
    ensures
        digits_in("┌─────────┬─────────┬─────────┐"@) == Seq::<u8>::empty(),
        digits_in("├─────────┼─────────┼─────────┤"@) == Seq::<u8>::empty(),
        digits_in("└─────────┴─────────┴─────────┘"@) == Seq::<u8>::empty(),
        digits_in("│"@) == Seq::<u8>::empty(),
        digits_in(" "@) == Seq::<u8>::empty(),
        digits_in("\n"@) == Seq::<u8>::empty(),
{
    reveal_strlit("┌─────────┬─────────┬─────────┐");
    reveal_strlit("├─────────┼─────────┼─────────┤");
    reveal_strlit("└─────────┴─────────┴─────────┘");
    reveal_strlit("│");
    reveal_strlit(" ");
    reveal_strlit("\n");
    lemma_no_digits("┌─────────┬─────────┬─────────┐"@);
    lemma_no_digits("├─────────┼─────────┼─────────┤"@);
    lemma_no_digits("└─────────┴─────────┴─────────┘"@);
    lemma_no_digits("│"@);
    lemma_no_digits(" "@);
    lemma_no_digits("\n"@);
}

/// The one digit of the cell of a value up to 9 is that value.
proof fn lemma_digits_in_cell(value: u8)
    requires
        value <= 9,
    ensures
        digits_in(cell_text(value)) == seq![value],
{
    reveal(decimal);
    lemma_digit_char(value);
    lemma_frame_has_no_digits();
    let d = decimal(value);
    assert(d.drop_last() =~= Seq::<char>::empty());
    assert(digits_in(d) =~= seq![value]) by {
        reveal_with_fuel(digits_in, 2);
    }
    lemma_digits_in_concat(" "@, d);
    lemma_digits_in_concat(" "@ + d, " "@);
    assert(digits_in(cell_text(value)) =~= seq![value]);
}

/// The digits of a row of the table are the values of the row.
proof fn lemma_digits_in_line(row: Seq<u8>)
    requires
        row.len() == 9,
        forall|c: int| 0 <= c < 9 ==> #[trigger] row[c] <= 9,
    ensures
        digits_in(line_text(row)) == row,
{
    lemma_line_prefix_whole(row);
    lemma_digits_in_line_prefix(row, 9);
    assert(row.subrange(0, 9) =~= row);
}

proof fn lemma_digits_in_line_prefix(row: Seq<u8>, n: int)
    requires
        row.len() == 9,
        forall|c: int| 0 <= c < 9 ==> #[trigger] row[c] <= 9,
        0 <= n <= 9,
    ensures
        digits_in(line_prefix(row, n)) == row.subrange(0, n),
    decreases n,
{
    if n > 0 {
        lemma_digits_in_line_prefix(row, n - 1);
        lemma_frame_has_no_digits();
        lemma_digits_in_cell(row[n - 1]);
        let before = line_prefix(row, n - 1);
        let bar: Seq<char> = if (n - 1) % 3 == 0 {
            "│"@
        } else {
            Seq::empty()
        };
        let end: Seq<char> = if n - 1 == 8 {
            "│"@
        } else {
            Seq::empty()
        };
        lemma_digits_in_concat(before, bar);
        lemma_digits_in_concat(before + bar, cell_text(row[n - 1]));
        lemma_digits_in_concat(before + bar + cell_text(row[n - 1]), end);
        assert(digits_in(line_prefix(row, n)) =~= row.subrange(0, n));
    } else {
        assert(row.subrange(0, 0) =~= Seq::<u8>::empty());
    }
}

/// The digits of nine framed lines are the digits of the lines.
proof fn lemma_digits_in_framed_prefix(lines: Seq<Seq<char>>, n: int)
    requires
        lines.len() == 9,
        0 <= n <= 9,
    ensures
        digits_in(framed_prefix(lines, n)) == lines.subrange(0, n).map_values(
            |line: Seq<char>| digits_in(line),
        ).flatten(),
    decreases n,
{
    let digits = |line: Seq<char>| digits_in(line);
    lemma_frame_has_no_digits();
    if n > 0 {
        lemma_digits_in_framed_prefix(lines, n - 1);
        let before = framed_prefix(lines, n - 1);
        let rule: Seq<char> = if n - 1 != 0 && (n - 1) % 3 == 0 {
            "├─────────┼─────────┼─────────┤"@ + "\n"@
        } else {
            Seq::empty()
        };
        lemma_digits_in_concat("├─────────┼─────────┼─────────┤"@, "\n"@);
        lemma_digits_in_concat(before, "\n"@);
        lemma_digits_in_concat(before + "\n"@, rule);
        lemma_digits_in_concat(before + "\n"@ + rule, lines[n - 1]);
        let done = lines.subrange(0, n - 1).map_values(digits);
        assert(lines.subrange(0, n).map_values(digits) =~= done.push(digits_in(lines[n - 1])));
        done.lemma_flatten_push(digits_in(lines[n - 1]));
    } else {
        assert(lines.subrange(0, 0).map_values(digits) =~= Seq::<Seq<u8>>::empty());
    }
}

proof fn lemma_digits_in_framed(lines: Seq<Seq<char>>)
    requires
        lines.len() == 9,
    ensures
        digits_in(framed(lines)) == lines.map_values(|line: Seq<char>| digits_in(line)).flatten(),
{
    let body = framed_prefix(lines, 9);
    lemma_framed_prefix_whole(lines);
    lemma_digits_in_framed_prefix(lines, 9);
    lemma_frame_has_no_digits();
    lemma_digits_in_concat(body, "\n"@);
    lemma_digits_in_concat(body + "\n"@, "└─────────┴─────────┴─────────┘"@);
    assert(lines.subrange(0, 9) =~= lines);
    assert(digits_in(body) + Seq::<u8>::empty() + Seq::<u8>::empty() =~= digits_in(body));
}

/// The digits of the table of a board whose cells hold at most 9, taken
/// nine to a row, are the board again.
pub proof fn lemma_table_round_trip(b: Board)
    requires
        is_grid(b),
        forall|r: int, c: int| on_board(r, c) ==> #[trigger] b[r][c] <= 9,
    ensures
        rows_of_nine(digits_in(table_text(b))) == b,
{
    let lines = Seq::new(9, |r: int| line_text(b[r]));
    let digits = |line: Seq<char>| digits_in(line);
    lemma_digits_in_framed(lines);
    assert(lines.map_values(digits) =~= b) by {
        assert forall|r: int| 0 <= r < 9 implies lines.map_values(digits)[r] == b[r] by {
            assert forall|c: int| 0 <= c < 9 implies #[trigger] b[r][c] <= 9 by {
                assert(on_board(r, c));
            }
            lemma_digits_in_line(b[r]);
        }
    }
    lemma_flatten_nine(b);
}

/// Nine rows of nine, laid end to end and cut into nines again.
proof fn lemma_flatten_nine(b: Board)
    requires
        is_grid(b),
    ensures
        rows_of_nine(b.flatten()) == b,
{
    assert(b =~= seq![b[0], b[1], b[2], b[3], b[4], b[5], b[6], b[7], b[8]]);
    reveal_with_fuel(Seq::flatten, 10);
    let flat = b.flatten();
    assert(flat =~= b[0] + b[1] + b[2] + b[3] + b[4] + b[5] + b[6] + b[7] + b[8]);
    assert forall|r: int| 0 <= r < 9 implies #[trigger] rows_of_nine(flat)[r] == b[r] by {
        assert(flat.subrange(9 * r, 9 * r + 9) =~= b[r]);
    }
    assert(rows_of_nine(flat) =~= b);
}

/// The row of the table as far as its first `n` cells.
spec fn line_prefix(row: Seq<u8>, n: int) -> Seq<char>
    decreases n,
{
    if n <= 0 {
        Seq::empty()
    } else {
        line_prefix(row, n - 1) + (if (n - 1) % 3 == 0 {
            "│"@
        } else {
            Seq::empty()
        }) + cell_text(row[n - 1]) + (if n - 1 == 8 {
            "│"@
        } else {
            Seq::empty()
        })
    }
}

/// The frame as far as its first `n` lines.
spec fn framed_prefix(lines: Seq<Seq<char>>, n: int) -> Seq<char>
    decreases n,
{
    if n <= 0 {
        "┌─────────┬─────────┬─────────┐"@
    } else {
        framed_prefix(lines, n - 1) + "\n"@ + (if n - 1 != 0 && (n - 1) % 3 == 0 {
            "├─────────┼─────────┼─────────┤"@ + "\n"@
        } else {
            Seq::empty()
        }) + lines[n - 1]
    }
}

proof fn lemma_line_prefix_whole(row: Seq<u8>)
    ensures
        line_prefix(row, 9) == line_text(row),
{
    reveal_with_fuel(line_prefix, 10);
    assert(line_prefix(row, 9) =~= line_text(row));
}

proof fn lemma_framed_prefix_whole(lines: Seq<Seq<char>>)
    ensures
        framed_prefix(lines, 9) + "\n"@ + "└─────────┴─────────┴─────────┘"@ == framed(lines),
{
    reveal_with_fuel(framed_prefix, 10);
    assert(framed_prefix(lines, 9) + "\n"@ + "└─────────┴─────────┴─────────┘"@ =~= framed(lines));
}

/// Appends the character of one digit.
fn push_digit(text: &mut String, d: u8)
    requires
        d <= 9,
    ensures
        final(text)@ == old(text)@.push(digit_char(d)),
{
    proof {
        reveal_strlit("0123456789");
    }
    let digits = "0123456789";
    let one = digits.substring_ascii(d as usize, d as usize + 1);
    text.append(one);
    assert(text@ =~= old(text)@.push(digit_char(d)));
}

/// Appends a value in decimal.
fn push_decimal(text: &mut String, value: u8)
    ensures
        final(text)@ == old(text)@ + decimal(value),
{
    if value >= 100 {
        push_digit(text, value / 100);
    }
    if value >= 10 {
        push_digit(text, value / 10 % 10);
    }
    push_digit(text, value % 10);
    proof {
        reveal(decimal);
    }
    assert(text@ =~= old(text)@ + decimal(value));
}

impl Sudoku {
    /// The board as text: a table with a frame where the board has nine
    /// rows of nine cells, and otherwise the words that say that there is no
    /// solution.
    pub fn render(&self) -> (text: String)
        ensures
            text@ == rendering(self@),
    {
        if self.0.len() != 9 {
            return "Нет решения".to_owned();
        }
        let mut text = "┌─────────┬─────────┬─────────┐".to_owned();
        let ghost lines = Seq::new(9, |r: int| line_text(self@[r]));
        for r in 0usize..9
            invariant
                self.0.len() == 9,
                forall|k: int| 0 <= k < r ==> (#[trigger] self@[k]).len() == 9,
                lines == Seq::new(9, |r: int| line_text(self@[r])),
                text@ == framed_prefix(lines, r as int),
        {
            if self.0[r].len() != 9 {
                assert(self@[r as int].len() != 9);
                return "Нет решения".to_owned();
            }
            text.append("\n");
            if r != 0 && r % 3 == 0 {
                text.append("├─────────┼─────────┼─────────┤");
                text.append("\n");
            }
            let ghost before = text@;
            for c in 0usize..9
                invariant
                    r < 9,
                    self.0.len() == 9,
                    self.0[r as int].len() == 9,
                    text@ == before + line_prefix(self@[r as int], c as int),
            {
                if c % 3 == 0 {
                    text.append("│");
                }
                text.append(" ");
                push_decimal(&mut text, self.0[r][c]);
                text.append(" ");
                if c == 8 {
                    text.append("│");
                }
                assert(text@ =~= before + line_prefix(self@[r as int], c + 1));
            }
            proof {
                lemma_line_prefix_whole(self@[r as int]);
                assert(text@ =~= framed_prefix(lines, r + 1));
            }
        }
        text.append("\n");
        text.append("└─────────┴─────────┴─────────┘");
        proof {
            lemma_framed_prefix_whole(lines);
        }
        text
    }
}

} // verus!
