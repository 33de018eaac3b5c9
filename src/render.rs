//! The grid as a 13-line text board.
use vstd::prelude::*;

use crate::grid::{cell_of, cells_of, Sudoku, SudokuNum};

verus! {

/// The character of digit `d`.
pub open spec fn digit_char(d: u8) -> char {
    match d {
        1 => '1',
        2 => '2',
        3 => '3',
        4 => '4',
        5 => '5',
        6 => '6',
        7 => '7',
        8 => '8',
        9 => '9',
        _ => '?',
    }
}

/// What a cell shows: its digit, or `.` when empty.
pub open spec fn symbol(c: Option<SudokuNum>) -> char {
    match c {
        Some(n) => digit_char(n.digit()),
        None => '.',
    }
}

/// The text of one cell; a given digit stands between `open` and `close`.
pub open spec fn cell_text(c: Option<SudokuNum>, open: Seq<char>, close: Seq<char>) -> Seq<char> {
    match c {
        Some(SudokuNum::Original(d)) => open + seq![digit_char(d)] + close,
        _ => seq![symbol(c)],
    }
}

/// The line drawn above and below each band of three rows.
pub open spec fn border() -> Seq<char> {
    "+-------+-------+-------+"@
}

/// Row `r` up to its first `j` cells, from the texts of the 81 cells.
pub open spec fn row_part(t: Seq<Seq<char>>, r: int, j: int) -> Seq<char>
    decreases j,
{
    if j <= 0 {
        "| "@
    } else {
        row_part(t, r, j - 1) + t[r * 9 + j - 1] + " "@ + if j == 3 || j == 6 {
            "| "@
        } else {
            Seq::empty()
        }
    }
}

/// The board down to the end of its first `k` rows of cells.
pub open spec fn rows_part(t: Seq<Seq<char>>, k: int) -> Seq<char>
    decreases k,
{
    if k <= 0 {
        Seq::empty()
    } else {
        rows_part(t, k - 1) + if (k - 1) % 3 == 0 {
            border() + "\n"@
        } else {
            Seq::empty()
        } + row_part(t, k - 1, 9) + "|\n"@
    }
}

/// The board around the texts of the 81 cells: a border line above every third row and
/// below the last, `|` between blocks of a row.
pub open spec fn frame(t: Seq<Seq<char>>) -> Seq<char> {
    rows_part(t, 9) + border()
}

/// The board that shows the 81 cell symbols `sym`.
pub open spec fn board(sym: Seq<char>) -> Seq<char> {
    frame(sym.map_values(|ch: char| seq![ch]))
}

/// A text with line breaks left out and each character but the digits 1 to 9 shown as `.`.
pub open spec fn pattern(s: Seq<char>) -> Seq<char>
    decreases s.len(),
{
    if s.len() == 0 {
        Seq::empty()
    } else if s.last() == '\n' {
        pattern(s.drop_last())
    } else {
        pattern(s.drop_last()).push(
            if cell_of(s.last()) is Some {
                s.last()
            } else {
                '.'
            },
        )
    }
}

/// A character of the input shows again as itself when it is a digit from 1 to 9, and as `.`
/// otherwise.
pub proof fn lemma_symbol_of_char(c: char)
    ensures
        symbol(cell_of(c)) == if cell_of(c) is Some {
            c
        } else {
            '.'
        },
{
    let v = c as u32;
    if 49 <= v <= 57 {
        assert(v == 49 ==> c == '1');
        assert(v == 50 ==> c == '2');
        assert(v == 51 ==> c == '3');
        assert(v == 52 ==> c == '4');
        assert(v == 53 ==> c == '5');
        assert(v == 54 ==> c == '6');
        assert(v == 55 ==> c == '7');
        assert(v == 56 ==> c == '8');
        assert(v == 57 ==> c == '9');
    }
}

/// The symbols of the cells read from a text are the text's pattern of digits and blanks.
pub proof fn lemma_symbols_of_cells(s: Seq<char>)
    ensures
        cells_of(s).map_values(|c: Option<SudokuNum>| symbol(c)) == pattern(s),
    decreases s.len(),
{
    if s.len() > 0 {
        lemma_symbols_of_cells(s.drop_last());
        if s.last() != '\n' {
            lemma_symbol_of_char(s.last());
            assert(cells_of(s).map_values(|c: Option<SudokuNum>| symbol(c)) =~= pattern(s));
        }
    }
}

/// Reading a text of 81 cells and rendering the grid shows each digit of the text where it
/// stood and a `.` for every other character, line breaks left out.
pub proof fn lemma_render_round_trip(src: Seq<char>)
    requires
        cells_of(src).len() == 81,
    ensures
        pattern(src).len() == 81,
        board(cells_of(src).map_values(|c: Option<SudokuNum>| symbol(c))) == board(pattern(src)),
{
    lemma_symbols_of_cells(src);
}

/// The text of digit `d`.
fn digit_str(d: u8) -> (r: &'static str)
    ensures
        r@ == seq![digit_char(d)],
{
    match d {
        1 => {
            proof { reveal_strlit("1"); }
            "1"
        },
        2 => {
            proof { reveal_strlit("2"); }
            "2"
        },
        3 => {
            proof { reveal_strlit("3"); }
            "3"
        },
        4 => {
            proof { reveal_strlit("4"); }
            "4"
        },
        5 => {
            proof { reveal_strlit("5"); }
            "5"
        },
        6 => {
            proof { reveal_strlit("6"); }
            "6"
        },
        7 => {
            proof { reveal_strlit("7"); }
            "7"
        },
        8 => {
            proof { reveal_strlit("8"); }
            "8"
        },
        9 => {
            proof { reveal_strlit("9"); }
            "9"
        },
        _ => {
            proof { reveal_strlit("?"); }
            "?"
        },
    }
}

/// Appends the text of cell `c` to `out`.
fn push_cell(out: &mut String, c: Option<SudokuNum>, open: &str, close: &str)
    ensures
        final(out)@ == old(out)@ + cell_text(c, open@, close@),
{
    match c {
        Some(SudokuNum::Original(d)) => {
            out.append(open);
            out.append(digit_str(d));
            out.append(close);
        },
        Some(SudokuNum::Edited(d)) => {
            out.append(digit_str(d));
        },
        None => {
            proof { reveal_strlit("."); }
            out.append(".");
        },
    }
}

impl Sudoku {
    /// The board as text, given digits written between `open` and `close` (a terminal's
    /// emphasis codes, say).
    pub fn render_marked(&self, open: &str, close: &str) -> (r: String)
        ensures
            r@ == frame(self@.map_values(|c: Option<SudokuNum>| cell_text(c, open@, close@))),
    {
        let ghost t = self@.map_values(|c: Option<SudokuNum>| cell_text(c, open@, close@));
        proof {
            self.lemma_len();
        }
        let mut out = String::new();
        let mut r: usize = 0;
        while r < 9
            invariant
                r <= 9,
                self@.len() == 81,
                t == self@.map_values(|c: Option<SudokuNum>| cell_text(c, open@, close@)),
                out@ == rows_part(t, r as int),
            decreases 9 - r,
        {
            if r % 3 == 0 {
                out.append("+-------+-------+-------+");
                out.append("\n");
            }
            let ghost head = out@;
            assert(head == rows_part(t, r as int) + if r % 3 == 0 {
                border() + "\n"@
            } else {
                Seq::<char>::empty()
            });
            out.append("| ");
            let mut j: usize = 0;
            while j < 9
                invariant
                    r < 9,
                    j <= 9,
                    self@.len() == 81,
                    t == self@.map_values(|c: Option<SudokuNum>| cell_text(c, open@, close@)),
                    out@ == head + row_part(t, r as int, j as int),
                decreases 9 - j,
            {
                let ghost before = out@;
                push_cell(&mut out, self.cell(r * 9 + j), open, close);
                out.append(" ");
                if j == 2 || j == 5 {
                    out.append("| ");
                }
                assert(t[r * 9 + j] == cell_text(self@[r * 9 + j], open@, close@));
                assert(out@ =~= head + row_part(t, r as int, j + 1));
                j = j + 1;
            }
            out.append("|\n");
            assert(out@ =~= rows_part(t, r + 1));
            r = r + 1;
        }
        out.append("+-------+-------+-------+");
        out
    }

    /// The board as text, every digit written alike.
    pub fn render(&self) -> (r: String)
        ensures
            r@ == board(self@.map_values(|c: Option<SudokuNum>| symbol(c))),
    {
        let r = self.render_marked("", "");
        proof {
            reveal_strlit("");
            self.lemma_len();
            assert(self@.map_values(|c: Option<SudokuNum>| cell_text(c, ""@, ""@)) =~= self@.map_values(
                |c: Option<SudokuNum>| symbol(c),
            ).map_values(|ch: char| seq![ch]));
        }
        r
    }
}

} // verus!
