//! The board as text. Each cell takes two lines: the values 0 and 1 above, 2
//! and 3 below, with a blank for each value that is ruled out.

use vstd::prelude::*;
use crate::cell::GCell;
use crate::game::Game;
use crate::grid::Grid;
use crate::lines::row_of;
use crate::puzzle::Puzzle;
use crate::solver::domains;

verus! {

/// The character for the value `v` in a cell with domain `d`: `shown` where
/// the value is possible, a blank where it is not.
pub open spec fn mark(d: Set<u8>, v: u8, shown: Seq<char>) -> Seq<char> {
    if d.contains(v) {
        shown
    } else {
        " "@
    }
}

/// The upper text line of the first `n` cells of `line`.
pub open spec fn upper_text(line: Seq<Set<u8>>, n: int) -> Seq<char>
    decreases n,
{
    if n <= 0 {
        Seq::<char>::empty()
    } else {
        upper_text(line, n - 1) + "|"@ + mark(line[n - 1], 0, "0"@) + mark(line[n - 1], 1, "1"@)
    }
}

/// The lower text line of the first `n` cells of `line`.
pub open spec fn lower_text(line: Seq<Set<u8>>, n: int) -> Seq<char>
    decreases n,
{
    if n <= 0 {
        Seq::<char>::empty()
    } else {
        lower_text(line, n - 1) + "|"@ + mark(line[n - 1], 2, "2"@) + mark(line[n - 1], 3, "3"@)
    }
}

/// The digit `d` as text.
pub open spec fn digit_text(d: u8) -> Seq<char> {
    if d == 0 {
        "0"@
    } else if d == 1 {
        "1"@
    } else if d == 2 {
        "2"@
    } else if d == 3 {
        "3"@
    } else if d == 4 {
        "4"@
    } else if d == 5 {
        "5"@
    } else if d == 6 {
        "6"@
    } else if d == 7 {
        "7"@
    } else if d == 8 {
        "8"@
    } else {
        "9"@
    }
}

/// The number `n` in base ten, with a blank before it where it has one digit.
pub open spec fn padded(n: u8) -> Seq<char> {
    if n < 10 {
        " "@ + digit_text(n)
    } else if n < 100 {
        digit_text(n / 10) + digit_text(n % 10)
    } else {
        digit_text(n / 100) + digit_text(n / 10 % 10) + digit_text(n % 10)
    }
}

/// The text of the first `n` rows of a grid, each row under a bar.
pub open spec fn grid_rows(cells: Seq<Set<u8>>, n: int) -> Seq<char>
    decreases n,
{
    if n <= 0 {
        Seq::<char>::empty()
    } else {
        grid_rows(cells, n - 1) + "----------------"@ + "\n"@ + upper_text(row_of(cells, n - 1), 5)
            + "|"@ + "\n"@ + lower_text(row_of(cells, n - 1), 5) + "|"@ + "\n"@
    }
}

/// The text of a grid: its five rows and a closing bar.
pub open spec fn grid_text(cells: Seq<Set<u8>>) -> Seq<char> {
    grid_rows(cells, 5) + "----------------"@
}

/// The text of the first `n` rows of a game: each row under a bar, with the
/// row's sum to the right of its upper line and the row's zero count to the
/// right of its lower line.
pub open spec fn game_rows(p: Puzzle, n: int) -> Seq<char>
    decreases n,
{
    if n <= 0 {
        Seq::<char>::empty()
    } else {
        game_rows(p, n - 1) + "------------------"@ + "\n"@ + upper_text(p.row(n - 1), 5) + "|"@
            + padded(p.constraints[n - 1].sum) + "\n"@ + lower_text(p.row(n - 1), 5) + "|"@
            + padded(p.constraints[n - 1].zeros) + "\n"@
    }
}

/// The sums of the first `n` columns, as one text line.
pub open spec fn column_sums(p: Puzzle, n: int) -> Seq<char>
    decreases n,
{
    if n <= 0 {
        Seq::<char>::empty()
    } else {
        column_sums(p, n - 1) + "|"@ + padded(p.constraints[5 + n - 1].sum)
    }
}

/// The zero counts of the first `n` columns, as one text line.
pub open spec fn column_zeros(p: Puzzle, n: int) -> Seq<char>
    decreases n,
{
    if n <= 0 {
        Seq::<char>::empty()
    } else {
        column_zeros(p, n - 1) + "|"@ + padded(p.constraints[5 + n - 1].zeros)
    }
}

/// The text of a game: its five rows with their constraints, a closing bar,
/// and below it the sums and the zero counts of the columns.
pub open spec fn game_text(p: Puzzle) -> Seq<char> {
    game_rows(p, 5) + "------------------"@ + "\n"@ + column_sums(p, 5) + "|"@ + "\n"@ + column_zeros(
        p,
        5,
    ) + "|"@
}

fn digit(d: u8) -> (s: &'static str)
    requires
        d < 10,
    ensures
        s@ == digit_text(d),
{
    if d == 0 {
        "0"
    } else if d == 1 {
        "1"
    } else if d == 2 {
        "2"
    } else if d == 3 {
        "3"
    } else if d == 4 {
        "4"
    } else if d == 5 {
        "5"
    } else if d == 6 {
        "6"
    } else if d == 7 {
        "7"
    } else if d == 8 {
        "8"
    } else {
        "9"
    }
}

fn pad(n: u8) -> (s: String)
    ensures
        s@ == padded(n),
{
    let mut s = String::new();
    if n < 10 {
        s.append(" ");
        s.append(digit(n));
    } else if n < 100 {
        s.append(digit(n / 10));
        s.append(digit(n % 10));
    } else {
        s.append(digit(n / 100));
        s.append(digit(n / 10 % 10));
        s.append(digit(n % 10));
    }
    assert(s@ =~= padded(n));
    s
}

fn upper_line(cells: &Vec<GCell>) -> (s: String)
    ensures
        s@ == upper_text(domains(cells@), cells.len() as int),
{
    let mut s = String::new();
    let mut i: usize = 0;
    while i < cells.len()
        invariant
            i <= cells.len(),
            s@ == upper_text(domains(cells@), i as int),
        decreases cells.len() - i,
    {
        s.append("|");
        s.append(if cells[i].has(0) { "0" } else { " " });
        s.append(if cells[i].has(1) { "1" } else { " " });
        i = i + 1;
    }
    s
}

fn lower_line(cells: &Vec<GCell>) -> (s: String)
    ensures
        s@ == lower_text(domains(cells@), cells.len() as int),
{
    let mut s = String::new();
    let mut i: usize = 0;
    while i < cells.len()
        invariant
            i <= cells.len(),
            s@ == lower_text(domains(cells@), i as int),
        decreases cells.len() - i,
    {
        s.append("|");
        s.append(if cells[i].has(2) { "2" } else { " " });
        s.append(if cells[i].has(3) { "3" } else { " " });
        i = i + 1;
    }
    s
}

impl Grid {
    /// The grid as text: eleven lines of sixteen characters, a bar above each
    /// row and one below the last.
    pub fn render(&self) -> (text: String)
        requires
            self.wf(),
        ensures
            text@ == grid_text(self@),
    {
        let mut out = String::new();
        let mut r: usize = 0;
        while r < 5
            invariant
                r <= 5,
                self.wf(),
                out@ == grid_rows(self@, r as int),
            decreases 5 - r,
        {
            let row = self.row(r);
            assert(row.len() == 5) by {
                assert(domains(row@).len() == 5);
            }
            let upper = upper_line(&row);
            let lower = lower_line(&row);
            out.append("----------------");
            out.append("\n");
            out.append(upper.as_str());
            out.append("|");
            out.append("\n");
            out.append(lower.as_str());
            out.append("|");
            out.append("\n");
            r = r + 1;
        }
        out.append("----------------");
        out
    }
}

impl Game {
    /// The game as text: the grid with each row's sum and zero count to its
    /// right, and each column's below it.
    pub fn render(&self) -> (text: String)
        requires
            self@.wf(),
        ensures
            text@ == game_text(self@),
    {
        let mut out = String::new();
        let mut r: usize = 0;
        while r < 5
            invariant
                r <= 5,
                self@.wf(),
                out@ == game_rows(self@, r as int),
            decreases 5 - r,
        {
            let row = self.grid().row(r);
            assert(row.len() == 5) by {
                assert(domains(row@).len() == 5);
            }
            let upper = upper_line(&row);
            let lower = lower_line(&row);
            let sum = pad(self.constraints()[r].sum);
            let zeros = pad(self.constraints()[r].zeros);
            out.append("------------------");
            out.append("\n");
            out.append(upper.as_str());
            out.append("|");
            out.append(sum.as_str());
            out.append("\n");
            out.append(lower.as_str());
            out.append("|");
            out.append(zeros.as_str());
            out.append("\n");
            r = r + 1;
        }
        let mut sums = String::new();
        let mut zeros = String::new();
        let mut c: usize = 0;
        while c < 5
            invariant
                c <= 5,
                self@.wf(),
                sums@ == column_sums(self@, c as int),
                zeros@ == column_zeros(self@, c as int),
            decreases 5 - c,
        {
            let sum = pad(self.constraints()[c + 5].sum);
            let zero = pad(self.constraints()[c + 5].zeros);
            sums.append("|");
            sums.append(sum.as_str());
            zeros.append("|");
            zeros.append(zero.as_str());
            c = c + 1;
        }
        out.append("------------------");
        out.append("\n");
        out.append(sums.as_str());
        out.append("|");
        out.append("\n");
        out.append(zeros.as_str());
        out.append("|");
        out
    }
}

} // verus!
