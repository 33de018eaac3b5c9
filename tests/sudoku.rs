use newdoku::{InsertError, Observer, ParseError, Quiet, Sudoku, SudokuNum};

const TEST_SUDOKU: &str =
    "xxxxxxx9xx9x7xx21xxx4x9xxxxx1xxx8xxx7xx42xxx5xx8xxxx748x1xxxx4xxxxxxxxxxxx9613xxx";
const SOLVED_SUDOKU: &str =
    "157832496396745218284196753415378962763429185928561374831257649672984531549613827";

fn grid(s: &str) -> Sudoku {
    Sudoku::from_str(s).unwrap()
}

#[test]
fn par_eq_sudokunum() {
    assert_eq!(SudokuNum::Original(5), SudokuNum::Edited(5));
}

#[test]
fn par_eq_sudoku() {
    let s1 = grid(TEST_SUDOKU);
    let s2 = grid(TEST_SUDOKU);

    assert_eq!(s1, s2);
}

#[test]
fn solve() {
    let s = grid(TEST_SUDOKU);
    assert_eq!(s.solution().unwrap(), grid(SOLVED_SUDOKU));
}

#[test]
#[should_panic]
fn solve_invalid() {
    let s = grid(
        "xxxxxxx9xx9x7xx21xxx4x9xxxxx1xxx8xxx7xx42xxx5xx8xxxx748x1xxxx4xxxxxxxxxxxx9613xx5",
    );
    s.solution().unwrap();
}

#[test]
fn try_insert() {
    let s1 = grid(TEST_SUDOKU).try_insert((3, 2), 5).unwrap();
    let s2 = grid(
        "xxxxxxx9xx9x7xx21xxx459xxxxx1xxx8xxx7xx42xxx5xx8xxxx748x1xxxx4xxxxxxxxxxxx9613xxx",
    );
    assert_eq!(s1, s2);
}

#[test]
fn try_insert_row() {
    let s1 = grid(TEST_SUDOKU);
    assert_eq!(
        s1.try_insert((5, 6), 4).map_err(|e| e.message()),
        Err("Duplicate instance already in row")
    );
    assert_eq!(s1.try_insert((5, 6), 4), Err(InsertError::RowDuplicate));
}

#[test]
fn try_insert_col() {
    let s1 = grid(TEST_SUDOKU);
    assert_eq!(
        s1.try_insert((5, 7), 8).map_err(|e| e.message()),
        Err("Duplicate instance already in col")
    );
    assert_eq!(s1.try_insert((5, 7), 8), Err(InsertError::ColDuplicate));
}

#[test]
fn try_insert_block() {
    let s1 = grid(TEST_SUDOKU);
    assert_eq!(
        s1.try_insert((5, 6), 6).map_err(|e| e.message()),
        Err("Duplicate instance already in block")
    );
    assert_eq!(s1.try_insert((5, 6), 6), Err(InsertError::BlockDuplicate));
}

#[test]
fn is_full() {
    assert_eq!(grid(SOLVED_SUDOKU).is_full(), true);
}

#[test]
fn isnt_full() {
    assert_eq!(grid(TEST_SUDOKU).is_full(), false);
}

#[test]
fn parse_rejects_wrong_length() {
    assert_eq!(Sudoku::from_str(&TEST_SUDOKU[1..]), Err(ParseError { cells: 80 }));
    let long = format!("{}x", TEST_SUDOKU);
    assert_eq!(Sudoku::from_str(&long), Err(ParseError { cells: 82 }));
    assert_eq!(Sudoku::from_str(""), Err(ParseError { cells: 0 }));
}

#[test]
fn parse_skips_line_breaks() {
    let mut text = String::new();
    for r in 0..9 {
        text.push_str(&TEST_SUDOKU[r * 9..r * 9 + 9]);
        text.push('\n');
    }
    assert_eq!(grid(&text), grid(TEST_SUDOKU));
}

#[test]
fn parse_reads_digits_as_given() {
    let s = grid(TEST_SUDOKU);
    assert_eq!(s.cell(7), Some(SudokuNum::Original(9)));
    assert!(matches!(s.cell(7), Some(SudokuNum::Original(9))));
    assert_eq!(s.cell(0), None);
    let zero = format!("0{}", &TEST_SUDOKU[1..]);
    assert_eq!(grid(&zero).cell(0), None);
}

#[test]
fn insert_marks_cell_as_placed() {
    let s = grid(TEST_SUDOKU).try_insert((3, 2), 5).unwrap();
    assert!(matches!(s.cell(21), Some(SudokuNum::Edited(5))));
}

#[test]
fn insert_rejects_bad_location() {
    let s = grid(TEST_SUDOKU);
    assert_eq!(s.try_insert((9, 0), 1), Err(InsertError::InvalidLocation));
    assert_eq!(s.try_insert((0, 9), 1), Err(InsertError::InvalidLocation));
}

#[test]
fn insert_rejects_bad_number() {
    let s = grid(TEST_SUDOKU);
    assert_eq!(s.try_insert((0, 0), 0), Err(InsertError::InvalidNumber));
    assert_eq!(s.try_insert((0, 0), 10), Err(InsertError::InvalidNumber));
}

#[test]
fn refused_insert_keeps_grid() {
    let s = grid(TEST_SUDOKU);
    let before = s;
    assert!(s.try_insert((5, 6), 4).is_err());
    assert_eq!(s, before);
    assert!(matches!(s.cell(5 + 6 * 9), None));
    assert!(s.try_insert((3, 2), 5).is_ok());
}

#[test]
fn full_after_placing_every_cell() {
    let solved = grid(SOLVED_SUDOKU);
    let mut s = grid(TEST_SUDOKU);
    for i in 0..81 {
        if s.cell(i).is_none() {
            let d = match solved.cell(i) {
                Some(n) => n.value(),
                None => unreachable!(),
            };
            assert!(!s.is_full());
            s = s.try_insert((i % 9, i / 9), d).unwrap();
        }
    }
    assert!(s.is_full());
    assert_eq!(s, solved);
}

struct Counter {
    steps: usize,
}

impl Observer for Counter {
    fn inserted(&mut self, _grid: &Sudoku) {
        self.steps += 1;
    }
}

#[test]
fn observed_search_gives_same_solution() {
    let s = grid(TEST_SUDOKU);
    let mut counter = Counter { steps: 0 };
    let a = s.solution_observed(&mut counter).unwrap();
    let b = s.solution_observed(&mut Quiet).unwrap();
    assert!(counter.steps >= 57);
    assert_eq!(a, b);
    assert_eq!(a, grid(SOLVED_SUDOKU));
}

#[test]
fn full_grid_is_its_own_solution() {
    let s = grid(SOLVED_SUDOKU);
    assert_eq!(s.solution().unwrap(), s);
}

#[test]
fn contradictory_givens_are_not_checked() {
    // Two given 1s in the first row: the search does not check the givens, and still fills
    // every empty cell.
    let bad = format!("11{}", &TEST_SUDOKU[2..]);
    let r = grid(&bad).solution().unwrap();
    assert!(r.is_full());
    assert_eq!(r.cell(0), Some(SudokuNum::Original(1)));
    assert_eq!(r.cell(1), Some(SudokuNum::Original(1)));
}

#[test]
fn render_board() {
    let text = grid(TEST_SUDOKU).render();
    let lines: Vec<&str> = text.split('\n').collect();
    assert_eq!(lines.len(), 13);
    assert_eq!(lines[0], "+-------+-------+-------+");
    assert_eq!(lines[1], "| . . . | . . . | . 9 . |");
    assert_eq!(lines[2], "| . 9 . | 7 . . | 2 1 . |");
    assert_eq!(lines[4], "+-------+-------+-------+");
    assert_eq!(lines[11], "| . . 9 | 6 1 3 | . . . |");
    assert_eq!(lines[12], "+-------+-------+-------+");
    assert_eq!(text.len(), 12 * 26 + 25);
}

#[test]
fn render_marks_given_digits() {
    let s = grid(TEST_SUDOKU).try_insert((0, 0), 1).unwrap();
    let text = s.render_marked("<", ">");
    let second = text.split('\n').nth(1).unwrap();
    assert_eq!(second, "| 1 . . | . . . | . <9> . |");
}

#[test]
fn render_shows_parsed_pattern() {
    let text = grid(TEST_SUDOKU).render();
    let shown: String = text
        .chars()
        .filter(|c| c.is_ascii_digit() || *c == '.')
        .collect();
    let expected: String = TEST_SUDOKU
        .chars()
        .map(|c| if c.is_ascii_digit() { c } else { '.' })
        .collect();
    assert_eq!(shown, expected);
}
