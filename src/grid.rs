//! The puzzle grid: 81 cells, each empty or holding a digit.
use vstd::prelude::*;

verus! {

/// A digit placed in a cell: either part of the puzzle as given, or placed while solving.
#[derive(Debug, Clone, Copy)]
pub enum SudokuNum {
    /// A digit of the puzzle as read.
    Original(u8),
    /// A digit placed by [`Sudoku::try_insert`].
    Edited(u8),
}

impl SudokuNum {
    /// The digit, whatever its origin.
    pub open spec fn digit(self) -> u8 {
        match self {
            SudokuNum::Original(d) => d,
            SudokuNum::Edited(d) => d,
        }
    }

    /// The digit, whatever its origin.
    pub fn value(&self) -> (r: u8)
        ensures
            r == self.digit(),
    {
        match self {
            SudokuNum::Original(d) => *d,
            SudokuNum::Edited(d) => *d,
        }
    }
}

impl PartialEq for SudokuNum {
    fn eq(&self, rhs: &SudokuNum) -> (r: bool) {
        self.value() == rhs.value()
    }
}

impl vstd::std_specs::cmp::PartialEqSpecImpl for SudokuNum {
    open spec fn obeys_eq_spec() -> bool {
        true
    }

    open spec fn eq_spec(&self, rhs: &SudokuNum) -> bool {
        self.digit() == rhs.digit()
    }
}

/// A 9×9 grid stored row by row: cell `(x, y)` (column `x`, row `y`) is at `y * 9 + x`.
#[derive(Debug, Clone, Copy)]
pub struct Sudoku {
    xs: [Option<SudokuNum>; 81],
}

impl View for Sudoku {
    type V = Seq<Option<SudokuNum>>;

    closed spec fn view(&self) -> Seq<Option<SudokuNum>> {
        self.xs@
    }
}

/// Why a placement was refused.
#[derive(Debug, Clone, Copy, PartialEq, Eq, Structural)]
pub enum InsertError {
    /// The column or the row is not in `0..9`.
    InvalidLocation,
    /// The digit is not in `1..=9`.
    InvalidNumber,
    /// The row already holds the digit.
    RowDuplicate,
    /// The column already holds the digit.
    ColDuplicate,
    /// The 3×3 block already holds the digit.
    BlockDuplicate,
}

/// The sentence that describes a refusal.
pub open spec fn message_of(e: InsertError) -> Seq<char> {
    match e {
        InsertError::InvalidLocation => "Location out of range"@,
        InsertError::InvalidNumber => "Inserted number must be in sudoku range (1-9)"@,
        InsertError::RowDuplicate => "Duplicate instance already in row"@,
        InsertError::ColDuplicate => "Duplicate instance already in col"@,
        InsertError::BlockDuplicate => "Duplicate instance already in block"@,
    }
}

impl InsertError {
    /// A sentence describing the refusal.
    pub fn message(&self) -> (r: &'static str)
        ensures
            r@ == message_of(*self),
    {
        match self {
            InsertError::InvalidLocation => "Location out of range",
            InsertError::InvalidNumber => "Inserted number must be in sudoku range (1-9)",
            InsertError::RowDuplicate => "Duplicate instance already in row",
            InsertError::ColDuplicate => "Duplicate instance already in col",
            InsertError::BlockDuplicate => "Duplicate instance already in block",
        }
    }
}

/// The input did not hold exactly 81 cells once line breaks were removed.
#[derive(Debug, Clone, Copy, PartialEq, Eq, Structural)]
pub struct ParseError {
    /// How many cells the input held.
    pub cells: usize,
}

/// The cell holds digit `d`.
pub open spec fn holds(c: Option<SudokuNum>, d: u8) -> bool {
    c is Some && c->0.digit() == d
}

/// Index of cell `(x, y)`.
pub open spec fn idx(x: int, y: int) -> int {
    y * 9 + x
}

/// Row `y` holds digit `d`.
pub open spec fn row_has(s: Seq<Option<SudokuNum>>, y: int, d: u8) -> bool {
    exists|x: int| 0 <= x < 9 && #[trigger] holds(s[idx(x, y)], d)
}

/// Column `x` holds digit `d`.
pub open spec fn col_has(s: Seq<Option<SudokuNum>>, x: int, d: u8) -> bool {
    exists|y: int| 0 <= y < 9 && #[trigger] holds(s[idx(x, y)], d)
}

/// The 3×3 block that holds cell `(x, y)` holds digit `d`.
pub open spec fn block_has(s: Seq<Option<SudokuNum>>, x: int, y: int, d: u8) -> bool {
    exists|i: int, j: int|
        0 <= i < 3 && 0 <= j < 3 && #[trigger] holds(s[idx(x - x % 3 + i, y - y % 3 + j)], d)
}

/// Placing `d` at `(x, y)` breaks none of the three rules.
pub open spec fn can_place(s: Seq<Option<SudokuNum>>, x: int, y: int, d: u8) -> bool {
    !row_has(s, y, d) && !col_has(s, x, d) && !block_has(s, x, y, d)
}

/// Every cell holds a digit.
pub open spec fn full(s: Seq<Option<SudokuNum>>) -> bool {
    forall|i: int| 0 <= i < s.len() ==> (#[trigger] s[i]) is Some
}

/// Every digit present is in `1..=9`.
pub open spec fn digits_in_range(s: Seq<Option<SudokuNum>>) -> bool {
    forall|i: int|
        0 <= i < s.len() && (#[trigger] s[i]) is Some ==> 1 <= s[i]->0.digit() <= 9
}

/// Two cells with the same digit ignoring its origin (or both empty).
pub open spec fn same_cell(a: Option<SudokuNum>, b: Option<SudokuNum>) -> bool {
    match (a, b) {
        (None, None) => true,
        (Some(p), Some(q)) => p.digit() == q.digit(),
        _ => false,
    }
}

/// Two grids with the same digits in the same cells, ignoring origins.
pub open spec fn same_digits(a: Seq<Option<SudokuNum>>, b: Seq<Option<SudokuNum>>) -> bool {
    &&& a.len() == b.len()
    &&& forall|i: int| 0 <= i < a.len() ==> same_cell(#[trigger] a[i], b[i])
}

/// What placing `d` at `(x, y)` gives, for a cell inside the grid: the first rule broken, or
/// the new cells.
pub open spec fn insert_outcome(s: Seq<Option<SudokuNum>>, x: int, y: int, d: u8) -> Result<
    Seq<Option<SudokuNum>>,
    InsertError,
> {
    if d < 1 || d > 9 {
        Err(InsertError::InvalidNumber)
    } else if row_has(s, y, d) {
        Err(InsertError::RowDuplicate)
    } else if col_has(s, x, d) {
        Err(InsertError::ColDuplicate)
    } else if block_has(s, x, y, d) {
        Err(InsertError::BlockDuplicate)
    } else {
        Ok(s.update(idx(x, y), Some(SudokuNum::Edited(d))))
    }
}

/// The outcome of a placement, with the grid seen through its cells.
pub open spec fn outcome_of(r: Result<Sudoku, InsertError>) -> Result<Seq<Option<SudokuNum>>, InsertError> {
    match r {
        Ok(g) => Ok(g@),
        Err(e) => Err(e),
    }
}

/// Cells `p` and `q` (indices) are distinct and share a row, a column or a 3×3 block.
pub open spec fn conflict(p: int, q: int) -> bool {
    &&& p != q
    &&& (p / 9 == q / 9 || p % 9 == q % 9 || (p / 27 == q / 27 && (p % 9) / 3 == (q % 9) / 3))
}

/// No row, column or block holds a digit twice.
pub open spec fn valid(s: Seq<Option<SudokuNum>>) -> bool {
    forall|p: int, q: int|
        0 <= p < s.len() && 0 <= q < s.len() && #[trigger] conflict(p, q) && s[p] is Some
            && s[q] is Some ==> s[p]->0.digit() != s[q]->0.digit()
}

/// Grid `t` holds every digit of grid `s`, in the same cell.
pub open spec fn extends(t: Seq<Option<SudokuNum>>, s: Seq<Option<SudokuNum>>) -> bool {
    &&& t.len() == s.len()
    &&& forall|i: int| 0 <= i < s.len() && (#[trigger] s[i]) is Some ==> same_cell(t[i], s[i])
}

/// Grid `t` is a solution of the puzzle `s`: full, valid, with digits from 1 to 9, and
/// keeping every digit of `s`.
pub open spec fn solves(t: Seq<Option<SudokuNum>>, s: Seq<Option<SudokuNum>>) -> bool {
    &&& t.len() == 81
    &&& full(t)
    &&& valid(t)
    &&& digits_in_range(t)
    &&& extends(t, s)
}

/// Placing a digit that breaks no rule keeps a valid grid valid.
pub proof fn lemma_place_keeps_valid(s: Seq<Option<SudokuNum>>, x: int, y: int, d: u8)
    requires
        s.len() == 81,
        0 <= x < 9,
        0 <= y < 9,
        valid(s),
        can_place(s, x, y, d),
    ensures
        valid(s.update(idx(x, y), Some(SudokuNum::Edited(d)))),
{
    let p0 = idx(x, y);
    let t = s.update(p0, Some(SudokuNum::Edited(d)));
    assert forall|p: int, q: int|
        0 <= p < t.len() && 0 <= q < t.len() && #[trigger] conflict(p, q) && t[p] is Some
            && t[q] is Some implies t[p]->0.digit() != t[q]->0.digit() by {
        if p == p0 || q == p0 {
            let o = if p == p0 { q } else { p };
            assert(conflict(p0, o));
            if t[o]->0.digit() == d {
                assert(holds(s[o], d));
                assert(p0 / 9 == y && p0 % 9 == x);
                if o / 9 == y {
                    assert(idx(o % 9, y) == o);
                    assert(row_has(s, y, d));
                } else if o % 9 == x {
                    assert(idx(x, o / 9) == o);
                    assert(col_has(s, x, d));
                } else {
                    let i = o % 9 - (x - x % 3);
                    let j = o / 9 - (y - y % 3);
                    assert(0 <= i < 3 && 0 <= j < 3);
                    assert(idx(x - x % 3 + i, y - y % 3 + j) == o);
                    assert(block_has(s, x, y, d));
                }
            }
        }
    }
}

/// The cell that one character of the input stands for: a digit from 1 to 9 is a given
/// digit, anything else an empty cell.
pub open spec fn cell_of(c: char) -> Option<SudokuNum> {
    if 49 <= (c as u32) <= 57 {
        Some(SudokuNum::Original((c as u32 - 48) as u8))
    } else {
        None
    }
}

/// The cells that a text stands for, line breaks left out.
pub open spec fn cells_of(s: Seq<char>) -> Seq<Option<SudokuNum>>
    decreases s.len(),
{
    if s.len() == 0 {
        Seq::empty()
    } else if s.last() == '\n' {
        cells_of(s.drop_last())
    } else {
        cells_of(s.drop_last()).push(cell_of(s.last()))
    }
}

/// Reading a text gives at most one cell per character, each digit in `1..=9`.
pub proof fn lemma_cells_of_len(s: Seq<char>)
    ensures
        cells_of(s).len() <= s.len(),
        digits_in_range(cells_of(s)),
    decreases s.len(),
{
    if s.len() > 0 {
        lemma_cells_of_len(s.drop_last());
    }
}

/// Reading a text gives only given digits and empty cells; placed digits come from
/// [`Sudoku::try_insert`] alone.
pub proof fn lemma_parsed_cells_given(s: Seq<char>)
    ensures
        forall|i: int|
            0 <= i < cells_of(s).len() ==> #[trigger] cells_of(s)[i] is None || cells_of(s)[i]->0 is Original,
    decreases s.len(),
{
    if s.len() > 0 {
        lemma_parsed_cells_given(s.drop_last());
    }
}

/// A grid is full exactly when each cell holds a given digit or a placed one.
pub proof fn lemma_full_iff_given_or_placed(s: Seq<Option<SudokuNum>>)
    ensures
        full(s) <==> forall|i: int|
            0 <= i < s.len() ==> match #[trigger] s[i] {
                Some(SudokuNum::Original(_)) => true,
                Some(SudokuNum::Edited(_)) => true,
                None => false,
            },
{
}

impl PartialEq for Sudoku {
    fn eq(&self, rhs: &Sudoku) -> (r: bool) {
        let mut i: usize = 0;
        while i < 81
            invariant
                self@.len() == 81,
                rhs@.len() == 81,
                i <= 81,
                forall|k: int| 0 <= k < i ==> same_cell(#[trigger] self@[k], rhs@[k]),
            decreases 81 - i,
        {
            let same = match (self.xs[i], rhs.xs[i]) {
                (None, None) => true,
                (Some(p), Some(q)) => p.value() == q.value(),
                _ => false,
            };
            if !same {
                return false;
            }
            i = i + 1;
        }
        true
    }
}

impl vstd::std_specs::cmp::PartialEqSpecImpl for Sudoku {
    open spec fn obeys_eq_spec() -> bool {
        true
    }

    open spec fn eq_spec(&self, rhs: &Sudoku) -> bool {
        same_digits(self@, rhs@)
    }
}

impl Sudoku {
    /// Reads a grid from text, row by row: a digit from 1 to 9 is a given digit, any other
    /// character an empty cell, and line breaks are skipped. Fails unless exactly 81 cells
    /// remain.
    pub fn from_str(src: &str) -> (r: Result<Sudoku, ParseError>)
        ensures
            r is Ok <==> cells_of(src@).len() == 81,
            r is Ok ==> r->Ok_0@ == cells_of(src@) && r->Ok_0.wf(),
            r is Err ==> r->Err_0.cells == cells_of(src@).len(),
    {
        let n = src.unicode_len();
        let mut xs: [Option<SudokuNum>; 81] = [None; 81];
        let mut count: usize = 0;
        let mut i: usize = 0;
        while i < n
            invariant
                n == src@.len(),
                i <= n,
                xs@.len() == 81,
                count == cells_of(src@.subrange(0, i as int)).len(),
                forall|j: int|
                    0 <= j < count && j < 81 ==> xs@[j] == #[trigger] cells_of(
                        src@.subrange(0, i as int),
                    )[j],
            decreases n - i,
        {
            let c = src.get_char(i);
            let ghost pre = src@.subrange(0, i as int);
            let ghost next = src@.subrange(0, i + 1);
            proof {
                assert(next.drop_last() =~= pre);
                lemma_cells_of_len(pre);
            }
            if c != '\n' {
                if count < 81 {
                    let v = c as u32;
                    xs[count] = if 49 <= v && v <= 57 {
                        Some(SudokuNum::Original((v - 48) as u8))
                    } else {
                        None
                    };
                }
                count = count + 1;
            }
            i = i + 1;
        }
        proof {
            assert(src@.subrange(0, n as int) =~= src@);
            lemma_cells_of_len(src@);
        }
        if count == 81 {
            let r = Sudoku { xs };
            assert(r@ =~= cells_of(src@));
            Ok(r)
        } else {
            Err(ParseError { cells: count })
        }
    }

    /// The cell at index `i` (row `i / 9`, column `i % 9`).
    pub fn cell(&self, i: usize) -> (r: Option<SudokuNum>)
        requires
            i < 81,
        ensures
            r == self@[i as int],
    {
        self.xs[i]
    }

    /// Every digit of the grid is in `1..=9`.
    pub open spec fn wf(&self) -> bool {
        digits_in_range(self@)
    }

    /// A grid has 81 cells.
    pub proof fn lemma_len(&self)
        ensures
            self@.len() == 81,
    {
    }

    /// Returns true if no cell is empty.
    pub fn is_full(&self) -> (r: bool)
        ensures
            self@.len() == 81,
            r == full(self@),
    {
        let mut i: usize = 0;
        while i < 81
            invariant
                self@.len() == 81,
                i <= 81,
                forall|k: int| 0 <= k < i ==> (#[trigger] self@[k]) is Some,
            decreases 81 - i,
        {
            if self.xs[i].is_none() {
                return false;
            }
            i = i + 1;
        }
        true
    }

    /// The cell at `(x, y)` holds digit `num`.
    fn holds_at(&self, x: usize, y: usize, num: u8) -> (r: bool)
        requires
            x < 9,
            y < 9,
        ensures
            r == holds(self@[idx(x as int, y as int)], num),
    {
        match self.xs[y * 9 + x] {
            Some(c) => c.value() == num,
            None => false,
        }
    }

    /// Returns the grid with `num` placed at `loc: (x, y)` (column, row; from 0), if the
    /// sudoku rules allow it: the row is checked first, then the column, then the block.
    pub fn try_insert(&self, loc: (usize, usize), num: u8) -> (r: Result<Sudoku, InsertError>)
        ensures
            self@.len() == 81,
            loc.0 >= 9 || loc.1 >= 9 ==> r == Err::<Sudoku, InsertError>(
                InsertError::InvalidLocation,
            ),
            loc.0 < 9 && loc.1 < 9 ==> outcome_of(r) == insert_outcome(self@, loc.0 as int, loc.1 as int, num),
            self.wf() && r is Ok ==> r->Ok_0.wf(),
    {
        let x = loc.0;
        let y = loc.1;
        if x >= 9 || y >= 9 {
            return Err(InsertError::InvalidLocation);
        }
        if num < 1 || num > 9 {
            return Err(InsertError::InvalidNumber);
        }
        let mut k: usize = 0;
        while k < 9
            invariant
                self@.len() == 81,
                x < 9,
                y < 9,
                x == loc.0,
                y == loc.1,
                1 <= num <= 9,
                k <= 9,
                forall|j: int| 0 <= j < k ==> !(#[trigger] holds(self@[idx(j, y as int)], num)),
            decreases 9 - k,
        {
            if self.holds_at(k, y, num) {
                assert(row_has(self@, y as int, num));
                return Err(InsertError::RowDuplicate);
            }
            k = k + 1;
        }
        let mut k: usize = 0;
        while k < 9
            invariant
                self@.len() == 81,
                x < 9,
                y < 9,
                x == loc.0,
                y == loc.1,
                1 <= num <= 9,
                k <= 9,
                forall|j: int| 0 <= j < k ==> !(#[trigger] holds(self@[idx(x as int, j)], num)),
                !row_has(self@, y as int, num),
            decreases 9 - k,
        {
            if self.holds_at(x, k, num) {
                assert(col_has(self@, x as int, num));
                return Err(InsertError::ColDuplicate);
            }
            k = k + 1;
        }
        let bx = x - x % 3;
        let by = y - y % 3;
        let mut j: usize = 0;
        while j < 3
            invariant
                self@.len() == 81,
                x < 9,
                y < 9,
                x == loc.0,
                y == loc.1,
                1 <= num <= 9,
                bx == x - x % 3,
                by == y - y % 3,
                !row_has(self@, y as int, num),
                !col_has(self@, x as int, num),
                j <= 3,
                forall|a: int, b: int|
                    0 <= a < 3 && 0 <= b < j ==> !(#[trigger] holds(
                        self@[idx(bx + a, by + b)],
                        num,
                    )),
            decreases 3 - j,
        {
            let mut i: usize = 0;
            while i < 3
                invariant
                    self@.len() == 81,
                    x < 9,
                    y < 9,
                    x == loc.0,
                    y == loc.1,
                    1 <= num <= 9,
                    bx == x - x % 3,
                    by == y - y % 3,
                    !row_has(self@, y as int, num),
                    !col_has(self@, x as int, num),
                    j < 3,
                    i <= 3,
                    forall|a: int, b: int|
                        0 <= a < 3 && 0 <= b < j ==> !(#[trigger] holds(
                            self@[idx(bx + a, by + b)],
                            num,
                        )),
                    forall|a: int| 0 <= a < i ==> !(#[trigger] holds(
                        self@[idx(bx + a, by + j)],
                        num,
                    )),
                decreases 3 - i,
            {
                if self.holds_at(bx + i, by + j, num) {
                    assert(holds(self@[idx(x - x % 3 + i, y - y % 3 + j)], num));
                    return Err(InsertError::BlockDuplicate);
                }
                i = i + 1;
            }
            j = j + 1;
        }
        assert(!block_has(self@, x as int, y as int, num)) by {
            assert(forall|a: int, b: int|
                0 <= a < 3 && 0 <= b < 3 ==> !#[trigger] holds(self@[idx(x - x % 3 + a, y - y % 3 + b)], num));
        }
        let mut xs = self.xs;
        xs[y * 9 + x] = Some(SudokuNum::Edited(num));
        let r = Sudoku { xs };
        assert(r@ =~= self@.update(idx(x as int, y as int), Some(SudokuNum::Edited(num))));
        Ok(r)
    }
}

} // verus!
