//! Depth-first search for a completion of a grid.
use vstd::prelude::*;

use crate::grid::{
    block_has, can_place, col_has, conflict, row_has, digits_in_range, extends, full, holds, idx, insert_outcome,
    lemma_place_keeps_valid, same_cell, same_digits, solves, valid, Sudoku, SudokuNum,
};

verus! {

/// The number of empty cells.
pub open spec fn empties(s: Seq<Option<SudokuNum>>) -> nat
    decreases s.len(),
{
    if s.len() == 0 {
        0
    } else {
        empties(s.drop_last()) + if s.last() is None {
            1nat
        } else {
            0nat
        }
    }
}

/// Filling an empty cell leaves one empty cell fewer.
pub proof fn lemma_empties_fill(s: Seq<Option<SudokuNum>>, i: int, v: Option<SudokuNum>)
    requires
        0 <= i < s.len(),
        s[i] is None,
        v is Some,
    ensures
        empties(s.update(i, v)) + 1 == empties(s),
    decreases s.len(),
{
    let t = s.update(i, v);
    if i == s.len() - 1 {
        assert(t.drop_last() =~= s.drop_last());
    } else {
        assert(t.drop_last() =~= s.drop_last().update(i, v));
        lemma_empties_fill(s.drop_last(), i, v);
    }
}

/// The index of the first empty cell at or after `k`, or the length when there is none.
pub open spec fn first_empty(s: Seq<Option<SudokuNum>>, k: int) -> int
    decreases s.len() - k,
{
    if k < 0 || k >= s.len() {
        s.len() as int
    } else if s[k] is None {
        k
    } else {
        first_empty(s, k + 1)
    }
}

/// An empty cell with no empty cell before it, from `k` on, is the first empty cell.
pub proof fn lemma_first_empty(s: Seq<Option<SudokuNum>>, k: int, i: int)
    requires
        0 <= k <= i < s.len(),
        s[i] is None,
        forall|j: int| k <= j < i ==> (#[trigger] s[j]) is Some,
    ensures
        first_empty(s, k) == i,
    decreases i - k,
{
    if k < i {
        lemma_first_empty(s, k + 1, i);
    }
}

/// What the search returns for a grid: the grid itself once full; otherwise the first
/// completion reached by trying 1 to 9, in order, at the first empty cell.
pub open spec fn search(s: Seq<Option<SudokuNum>>) -> Option<Seq<Option<SudokuNum>>>
    decreases empties(s), 10int,
{
    if s.len() != 81 {
        None
    } else if full(s) {
        Some(s)
    } else {
        try_digits(s, first_empty(s, 0), 1)
    }
}

/// The search at empty cell `i`, trying the digits from `d` to 9 in order.
pub open spec fn try_digits(s: Seq<Option<SudokuNum>>, i: int, d: int) -> Option<
    Seq<Option<SudokuNum>>,
>
    decreases empties(s), 10 - d,
{
    if d < 1 || d > 9 || !(0 <= i < s.len()) || s[i] is Some || s.len() != 81 {
        None
    } else {
        match insert_outcome(s, i % 9, i / 9, d as u8) {
            Ok(t) => {
                proof {
                    assert(idx(i % 9, i / 9) == i);
                    lemma_empties_fill(s, i, Some(SudokuNum::Edited(d as u8)));
                }
                match search(t) {
                    Some(r) => Some(r),
                    None => try_digits(s, i, d + 1),
                }
            },
            Err(_) => try_digits(s, i, d + 1),
        }
    }
}

} // verus!

verus! {

/// Told of each grid that the search reaches by a placement, before the search goes on from
/// it. It has no say in the outcome.
pub trait Observer {
    fn inserted(&mut self, grid: &Sudoku);
}

/// An observer that ignores every step.
pub struct Quiet;

impl Observer for Quiet {
    fn inserted(&mut self, grid: &Sudoku) {
    }
}

/// The outcome of a search, with the grid seen through its cells.
pub open spec fn found(r: Option<Sudoku>) -> Option<Seq<Option<SudokuNum>>> {
    match r {
        Some(g) => Some(g@),
        None => None,
    }
}

impl Sudoku {
    /// Returns the completion of `self` found by depth-first search, if there is one: the
    /// first empty cell in row order gets the digits 1 to 9 in turn, each allowed one leading
    /// to a recursive search, and the first completion found is returned.
    pub fn solution(&self) -> (r: Option<Sudoku>)
        ensures
            found(r) == search(self@),
            valid(self@) && self.wf() && r is Some ==> solves(r->0@, self@),
            (exists|t: Seq<Option<SudokuNum>>| solves(t, self@)) ==> r is Some,
    {
        let mut quiet = Quiet;
        self.solution_observed(&mut quiet)
    }

    /// As [`Sudoku::solution`], telling `observer` of each grid reached by a placement.
    pub fn solution_observed<O: Observer>(&self, observer: &mut O) -> (r: Option<Sudoku>)
        ensures
            found(r) == search(self@),
            valid(self@) && self.wf() && r is Some ==> solves(r->0@, self@),
            (exists|t: Seq<Option<SudokuNum>>| solves(t, self@)) ==> r is Some,
    {
        let r = self.search_observed(observer);
        proof {
            self.lemma_len();
            if valid(self@) && self.wf() && r is Some {
                lemma_search_sound(self@);
            }
            if exists|t: Seq<Option<SudokuNum>>| solves(t, self@) {
                let t = choose|t: Seq<Option<SudokuNum>>| solves(t, self@);
                lemma_search_complete(self@, t);
            }
        }
        r
    }

    fn search_observed<O: Observer>(&self, observer: &mut O) -> (r: Option<Sudoku>)
        ensures
            found(r) == search(self@),
        decreases empties(self@),
    {
        proof {
            self.lemma_len();
        }
        if self.is_full() {
            return Some(*self);
        }
        let mut i: usize = 0;
        while i < 81
            invariant
                self@.len() == 81,
                !full(self@),
                i <= 81,
                forall|k: int| 0 <= k < i ==> (#[trigger] self@[k]) is Some,
            ensures
                i <= 81,
                i < 81 ==> self@[i as int] is None,
                forall|k: int| 0 <= k < i ==> (#[trigger] self@[k]) is Some,
            decreases 81 - i,
        {
            if self.cell(i).is_none() {
                break;
            }
            i = i + 1;
        }
        proof {
            if i == 81 {
                assert(full(self@));
            }
            lemma_first_empty(self@, 0, i as int);
        }
        let x = i % 9;
        let y = i / 9;
        let mut d: u8 = 1;
        while d <= 9
            invariant
                self@.len() == 81,
                !full(self@),
                i < 81,
                x == i % 9,
                y == i / 9,
                self@[i as int] is None,
                1 <= d <= 10,
                search(self@) == try_digits(self@, i as int, d as int),
            decreases 10 - d,
        {
            let attempt = self.try_insert((x, y), d);
            proof {
                assert(idx(x as int, y as int) == i);
            }
            match attempt {
                Ok(next) => {
                    proof {
                        lemma_empties_fill(self@, i as int, Some(SudokuNum::Edited(d)));
                    }
                    observer.inserted(&next);
                    let sub = next.search_observed(observer);
                    if sub.is_some() {
                        return sub;
                    }
                },
                Err(_) => {},
            }
            d = d + 1;
        }
        None
    }
}

} // verus!

verus! {

/// Whatever the search returns for a valid grid with digits from 1 to 9 is a solution of it.
pub proof fn lemma_search_sound(s: Seq<Option<SudokuNum>>)
    requires
        valid(s),
        digits_in_range(s),
        search(s) is Some,
    ensures
        solves(search(s)->0, s),
    decreases empties(s), 10int,
{
    if !full(s) {
        lemma_try_digits_sound(s, first_empty(s, 0), 1);
    }
}

/// Whatever the search returns from empty cell `i` and digit `d` on is a solution.
pub proof fn lemma_try_digits_sound(s: Seq<Option<SudokuNum>>, i: int, d: int)
    requires
        valid(s),
        digits_in_range(s),
        try_digits(s, i, d) is Some,
    ensures
        solves(try_digits(s, i, d)->0, s),
    decreases empties(s), 10 - d,
{
    let d8 = d as u8;
    match insert_outcome(s, i % 9, i / 9, d8) {
        Ok(t) => {
            assert(idx(i % 9, i / 9) == i);
            lemma_empties_fill(s, i, Some(SudokuNum::Edited(d8)));
            if search(t) is Some {
                lemma_place_keeps_valid(s, i % 9, i / 9, d8);
                assert(digits_in_range(t));
                lemma_search_sound(t);
                let r = search(t)->0;
                assert forall|k: int| 0 <= k < s.len() && (#[trigger] s[k]) is Some implies same_cell(
                    r[k],
                    s[k],
                ) by {
                    assert(t[k] == s[k]);
                }
            } else {
                lemma_try_digits_sound(s, i, d + 1);
            }
        },
        Err(_) => {
            lemma_try_digits_sound(s, i, d + 1);
        },
    }
}

/// A cell of `s` holding the digit that solution `sol` puts in the empty cell `i` does not
/// share a row, a column or a block with `i`.
proof fn lemma_no_rival(sol: Seq<Option<SudokuNum>>, s: Seq<Option<SudokuNum>>, i: int, o: int)
    requires
        solves(sol, s),
        0 <= i < 81,
        0 <= o < 81,
        s[i] is None,
        holds(s[o], sol[i]->0.digit()),
    ensures
        !conflict(i, o),
{
    assert(same_cell(sol[o], s[o]));
}

proof fn lemma_solution_row(sol: Seq<Option<SudokuNum>>, s: Seq<Option<SudokuNum>>, i: int)
    requires
        solves(sol, s),
        0 <= i < 81,
        s[i] is None,
    ensures
        !row_has(s, i / 9, sol[i]->0.digit()),
{
    let d = sol[i]->0.digit();
    assert forall|a: int| 0 <= a < 9 implies !(#[trigger] holds(s[idx(a, i / 9)], d)) by {
        let o = idx(a, i / 9);
        if holds(s[o], d) {
            lemma_no_rival(sol, s, i, o);
            assert(o / 9 == i / 9);
        }
    }
}

proof fn lemma_solution_col(sol: Seq<Option<SudokuNum>>, s: Seq<Option<SudokuNum>>, i: int)
    requires
        solves(sol, s),
        0 <= i < 81,
        s[i] is None,
    ensures
        !col_has(s, i % 9, sol[i]->0.digit()),
{
    let d = sol[i]->0.digit();
    assert forall|b: int| 0 <= b < 9 implies !(#[trigger] holds(s[idx(i % 9, b)], d)) by {
        let o = idx(i % 9, b);
        if holds(s[o], d) {
            lemma_no_rival(sol, s, i, o);
            assert(o % 9 == i % 9);
        }
    }
}

/// Cell `(x - x % 3 + a, y - y % 3 + b)` lies in the block of cell `i = (x, y)`.
proof fn lemma_block_cell(i: int, a: int, b: int)
    requires
        0 <= i < 81,
        0 <= a < 3,
        0 <= b < 3,
    ensures
        ({
            let o = idx(i % 9 - (i % 9) % 3 + a, i / 9 - (i / 9) % 3 + b);
            &&& 0 <= o < 81
            &&& o / 27 == i / 27
            &&& (o % 9) / 3 == (i % 9) / 3
        }),
{
    let (iu, au, bu) = (i as u32, a as u32, b as u32);
    assert({
        let o = (iu / 9 - (iu / 9) % 3 + bu) * 9 + (iu % 9 - (iu % 9) % 3 + au);
        &&& o < 81
        &&& o / 27 == iu / 27
        &&& (o % 9) / 3 == (iu % 9) / 3
    }) by (bit_vector)
        requires
            iu < 81,
            au < 3,
            bu < 3,
    ;
}

proof fn lemma_solution_block(sol: Seq<Option<SudokuNum>>, s: Seq<Option<SudokuNum>>, i: int)
    requires
        solves(sol, s),
        0 <= i < 81,
        s[i] is None,
    ensures
        !block_has(s, i % 9, i / 9, sol[i]->0.digit()),
{
    let d = sol[i]->0.digit();
    let x = i % 9;
    let y = i / 9;
    assert forall|a: int, b: int| 0 <= a < 3 && 0 <= b < 3 implies !(#[trigger] holds(
        s[idx(x - x % 3 + a, y - y % 3 + b)],
        d,
    )) by {
        let o = idx(x - x % 3 + a, y - y % 3 + b);
        if holds(s[o], d) {
            lemma_block_cell(i, a, b);
            lemma_no_rival(sol, s, i, o);
        }
    }
}

/// A solution of `s` stays a solution once an empty cell of `s` gets the solution's digit
/// there, and the rules allow that placement.
proof fn lemma_solution_allows(sol: Seq<Option<SudokuNum>>, s: Seq<Option<SudokuNum>>, i: int)
    requires
        solves(sol, s),
        s.len() == 81,
        0 <= i < 81,
        s[i] is None,
    ensures
        can_place(s, i % 9, i / 9, sol[i]->0.digit()),
        solves(sol, s.update(i, Some(SudokuNum::Edited(sol[i]->0.digit())))),
{
    lemma_solution_row(sol, s, i);
    lemma_solution_col(sol, s, i);
    lemma_solution_block(sol, s, i);
    let t = s.update(i, Some(SudokuNum::Edited(sol[i]->0.digit())));
    assert forall|k: int| 0 <= k < t.len() && (#[trigger] t[k]) is Some implies same_cell(
        sol[k],
        t[k],
    ) by {
        if k != i {
            assert(s[k] is Some);
        }
    }
}

/// When `s` has a solution, the search finds one.
pub proof fn lemma_search_complete(s: Seq<Option<SudokuNum>>, sol: Seq<Option<SudokuNum>>)
    requires
        s.len() == 81,
        solves(sol, s),
    ensures
        search(s) is Some,
    decreases empties(s), 10int,
{
    if !full(s) {
        let i = first_empty(s, 0);
        lemma_first_empty_found(s, 0);
        lemma_try_digits_complete(s, i, 1, sol);
    }
}

/// Where an empty cell is left, the first empty cell is one.
pub proof fn lemma_first_empty_found(s: Seq<Option<SudokuNum>>, k: int)
    requires
        0 <= k <= s.len(),
        exists|j: int| k <= j < s.len() && (#[trigger] s[j]) is None,
    ensures
        k <= first_empty(s, k) < s.len(),
        s[first_empty(s, k)] is None,
    decreases s.len() - k,
{
    if s[k] is Some {
        lemma_first_empty_found(s, k + 1);
    }
}

/// The search from empty cell `i` and digit `d` on finds a completion when a solution puts a
/// digit of at least `d` there.
pub proof fn lemma_try_digits_complete(
    s: Seq<Option<SudokuNum>>,
    i: int,
    d: int,
    sol: Seq<Option<SudokuNum>>,
)
    requires
        s.len() == 81,
        solves(sol, s),
        0 <= i < 81,
        s[i] is None,
        1 <= d <= sol[i]->0.digit(),
    ensures
        try_digits(s, i, d) is Some,
    decreases empties(s), 10 - d,
{
    let d8 = d as u8;
    assert(sol[i] is Some);
    assert(1 <= sol[i]->0.digit() <= 9);
    assert(idx(i % 9, i / 9) == i);
    lemma_empties_fill(s, i, Some(SudokuNum::Edited(d8)));
    if d == sol[i]->0.digit() {
        lemma_solution_allows(sol, s, i);
        let t = s.update(i, Some(SudokuNum::Edited(d8)));
        lemma_search_complete(t, sol);
    } else {
        match insert_outcome(s, i % 9, i / 9, d8) {
            Ok(t) => {
                if search(t) is None {
                    lemma_try_digits_complete(s, i, d + 1, sol);
                }
            },
            Err(_) => {
                lemma_try_digits_complete(s, i, d + 1, sol);
            },
        }
    }
}

/// A puzzle with exactly one solution: the search returns that solution.
pub proof fn lemma_unique_solution_found(s: Seq<Option<SudokuNum>>, sol: Seq<Option<SudokuNum>>)
    requires
        s.len() == 81,
        solves(sol, s),
        forall|t: Seq<Option<SudokuNum>>| solves(t, s) ==> same_digits(t, sol),
    ensures
        search(s) is Some,
        same_digits(search(s)->0, sol),
{
    lemma_search_complete(s, sol);
    assert(valid(s)) by {
        assert forall|p: int, q: int|
            0 <= p < s.len() && 0 <= q < s.len() && #[trigger] conflict(p, q) && s[p] is Some
                && s[q] is Some implies s[p]->0.digit() != s[q]->0.digit() by {
            assert(same_cell(sol[p], s[p]) && same_cell(sol[q], s[q]));
        }
    }
    assert(digits_in_range(s)) by {
        assert forall|k: int| 0 <= k < s.len() && (#[trigger] s[k]) is Some implies 1
            <= s[k]->0.digit() <= 9 by {
            assert(same_cell(sol[k], s[k]));
        }
    }
    lemma_search_sound(s);
}

} // verus!
