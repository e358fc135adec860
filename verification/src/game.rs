//! The game: a grid under its ten constraints, and the deduction that narrows
//! the grid round by round.

use vstd::prelude::*;
use crate::cell::GCell;
use crate::constraint::Constraint;
use crate::grid::Grid;
use crate::puzzle::{weight, Puzzle};
use crate::solver::{domains, reduced, Section};

verus! {

/// A puzzle in play: the grid as far as it is known, and the constraints of the
/// five rows followed by those of the five columns.
#[derive(Debug, Clone, PartialEq, Eq)]
pub struct Game {
    grid: Grid,
    constraints: Vec<Constraint>,
}

impl View for Game {
    type V = Puzzle;

    closed spec fn view(&self) -> Puzzle {
        Puzzle { cells: self.grid@, constraints: self.constraints@ }
    }
}

/// The puzzle that row lines and column lines give together: each cell holds
/// what its row line and its column line both allow there, and the constraints
/// are those of the first five row lines, then those of the first five column
/// lines.
pub open spec fn crossed(rows: Seq<Section>, cols: Seq<Section>) -> Puzzle {
    Puzzle {
        cells: Seq::new(
            25,
            |k: int| rows[k / 5].section@[k % 5]@.intersect(cols[k % 5].section@[k / 5]@),
        ),
        constraints: Seq::new(
            10,
            |i: int|
                if i < 5 {
                    rows[i].constraint
                } else {
                    cols[i - 5].constraint
                },
        ),
    }
}

/// Whether `cells` lists the safe cells of `p`: the positions, as (row,
/// column), of the cells that are open and cannot hold a zero, all of them,
/// row by row.
pub open spec fn lists_safe(p: Puzzle, cells: Seq<(usize, usize)>) -> bool {
    &&& forall|i: int|
        0 <= i < cells.len() ==> (#[trigger] cells[i]).0 < 5 && cells[i].1 < 5 && p.safe_at(
            cells[i].0 as int,
            cells[i].1 as int,
        )
    &&& forall|i: int, j: int|
        0 <= i < j < cells.len() ==> 5 * cells[i].0 + cells[i].1 < 5 * cells[j].0 + cells[j].1
    &&& forall|r: usize, c: usize|
        r < 5 && c < 5 && p.safe_at(r as int, c as int) ==> #[trigger] cells.contains((r, c))
}

/// Whether `lines` are the lines `of` narrowed: each under its own
/// constraint, each cell left with the values that some solution gives it.
pub open spec fn narrowed_lines(lines: Seq<Section>, of: Seq<Section>) -> bool {
    &&& lines.len() == of.len()
    &&& forall|i: int|
        0 <= i < of.len() ==> (#[trigger] lines[i]).constraint == of[i].constraint && domains(
            lines[i].section@,
        ) == reduced(domains(of[i].section@), of[i].constraint)
}

fn simplify_each(lines: &Vec<Section>) -> (narrowed: Vec<Section>)
    ensures
        narrowed_lines(narrowed@, lines@),
{
    let mut res: Vec<Section> = Vec::new();
    let mut i: usize = 0;
    while i < lines.len()
        invariant
            i <= lines.len(),
            res.len() == i,
            forall|j: int|
                0 <= j < i ==> (#[trigger] res[j]).constraint == lines[j].constraint && domains(
                    res[j].section@,
                ) == reduced(domains(lines[j].section@), lines[j].constraint),
        decreases lines.len() - i,
    {
        res.push(lines[i].simplify());
        i = i + 1;
    }
    res
}

impl Game {
    /// A game of which only the constraints are known: those of the five rows,
    /// then those of the five columns.
    pub fn new(constraints: Vec<Constraint>) -> (game: Self)
        requires
            constraints.len() == 10,
        ensures
            game@ == Puzzle::fresh(constraints@),
            game@.wf(),
    {
        let grid = Grid::new();
        Game { grid, constraints }
    }

    /// The grid as far as it is known.
    pub fn grid(&self) -> (g: &Grid)
        ensures
            g@ == self@.cells,
    {
        &self.grid
    }

    /// The constraints: rows first, then columns.
    pub fn constraints(&self) -> (cons: &Vec<Constraint>)
        ensures
            cons@ == self@.constraints,
    {
        &self.constraints
    }

    /// Puts row lines and column lines together again: each cell is left with
    /// what its row line and its column line both allow.
    pub fn from_sections(row_sections: &[Section], col_sections: &[Section]) -> (game: Self)
        requires
            row_sections@.len() >= 5,
            col_sections@.len() >= 5,
            forall|i: int| 0 <= i < 5 ==> (#[trigger] row_sections@[i]).section.len() >= 5,
            forall|i: int| 0 <= i < 5 ==> (#[trigger] col_sections@[i]).section.len() >= 5,
        ensures
            game@ == crossed(row_sections@, col_sections@),
            game@.wf(),
    {
        let ghost want = crossed(row_sections@, col_sections@);
        let mut board: Vec<GCell> = Vec::new();
        let mut row: usize = 0;
        while row < 5
            invariant
                row <= 5,
                row_sections@.len() >= 5,
                col_sections@.len() >= 5,
                forall|i: int| 0 <= i < 5 ==> (#[trigger] row_sections@[i]).section.len() >= 5,
                forall|i: int| 0 <= i < 5 ==> (#[trigger] col_sections@[i]).section.len() >= 5,
                want == crossed(row_sections@, col_sections@),
                board.len() == 5 * row,
                forall|k: int| 0 <= k < board.len() ==> (#[trigger] board[k])@ == want.cells[k],
            decreases 5 - row,
        {
            let mut col: usize = 0;
            while col < 5
                invariant
                    row < 5,
                    col <= 5,
                    row_sections@.len() >= 5,
                    col_sections@.len() >= 5,
                    forall|i: int| 0 <= i < 5 ==> (#[trigger] row_sections@[i]).section.len() >= 5,
                    forall|i: int| 0 <= i < 5 ==> (#[trigger] col_sections@[i]).section.len() >= 5,
                    want == crossed(row_sections@, col_sections@),
                    board.len() == 5 * row + col,
                    forall|k: int| 0 <= k < board.len() ==> (#[trigger] board[k])@ == want.cells[k],
                decreases 5 - col,
            {
                assert(row_sections@[row as int].section.len() >= 5);
                assert(col_sections@[col as int].section.len() >= 5);
                let row_tile = row_sections[row].section[col];
                let col_tile = col_sections[col].section[row];
                board.push(row_tile.intersect(&col_tile));
                col = col + 1;
            }
            row = row + 1;
        }
        let mut constraints: Vec<Constraint> = Vec::new();
        let mut row: usize = 0;
        while row < 5
            invariant
                row <= 5,
                row_sections@.len() >= 5,
                want == crossed(row_sections@, col_sections@),
                constraints.len() == row,
                forall|i: int| 0 <= i < row ==> constraints[i] == want.constraints[i],
            decreases 5 - row,
        {
            constraints.push(row_sections[row].constraint);
            row = row + 1;
        }
        let mut col: usize = 0;
        while col < 5
            invariant
                col <= 5,
                col_sections@.len() >= 5,
                want == crossed(row_sections@, col_sections@),
                constraints.len() == 5 + col,
                forall|i: int| 0 <= i < 5 + col ==> constraints[i] == want.constraints[i],
            decreases 5 - col,
        {
            constraints.push(col_sections[col].constraint);
            col = col + 1;
        }
        let grid = Grid::from_cells(board);
        proof {
            grid.lemma_within();
            assert(grid@ =~= want.cells);
            assert(constraints@ =~= want.constraints);
        }
        Game { grid, constraints }
    }

    /// The game after a guess of `val` at (`row`, `col`): that cell becomes
    /// `{val}` where `val` was possible there. A position outside the grid, or a
    /// value that was not possible, leaves the game as it is.
    pub fn set(&self, row: usize, col: usize, val: u8) -> (game: Self)
        requires
            self@.wf(),
        ensures
            game@ == self@.guess(row as int, col as int, val),
            game@.wf(),
    {
        let grid = self.grid.set(row, col, val);
        let constraints = self.constraints.clone();
        proof {
            grid.lemma_within();
            assert(constraints@ =~= self.constraints@);
        }
        Game { grid, constraints }
    }

    /// The cells that are open and cannot hold a zero, row by row, each as
    /// (row, column).
    pub fn safe(&self) -> (cells: Vec<(usize, usize)>)
        requires
            self@.wf(),
        ensures
            lists_safe(self@, cells@),
    {
        let mut guesses: Vec<(usize, usize)> = Vec::new();
        let mut row: usize = 0;
        while row < 5
            invariant
                row <= 5,
                self@.wf(),
                forall|i: int|
                    0 <= i < guesses.len() ==> (#[trigger] guesses[i]).0 < row && guesses[i].1 < 5
                        && self@.safe_at(guesses[i].0 as int, guesses[i].1 as int),
                forall|i: int, j: int|
                    0 <= i < j < guesses.len() ==> 5 * guesses[i].0 + guesses[i].1 < 5
                        * guesses[j].0 + guesses[j].1,
                forall|r: usize, c: usize|
                    r < row && c < 5 && self@.safe_at(r as int, c as int)
                        ==> #[trigger] guesses@.contains((r, c)),
            decreases 5 - row,
        {
            let mut col: usize = 0;
            while col < 5
                invariant
                    row < 5,
                    col <= 5,
                    self@.wf(),
                    forall|i: int|
                        0 <= i < guesses.len() ==> (#[trigger] guesses[i]).0 <= row
                            && guesses[i].1 < 5 && 5 * guesses[i].0 + guesses[i].1 < 5 * row + col
                            && self@.safe_at(guesses[i].0 as int, guesses[i].1 as int),
                    forall|i: int, j: int|
                        0 <= i < j < guesses.len() ==> 5 * guesses[i].0 + guesses[i].1 < 5
                            * guesses[j].0 + guesses[j].1,
                    forall|r: usize, c: usize|
                        r < 5 && c < 5 && 5 * r + c < 5 * row + col && self@.safe_at(
                            r as int,
                            c as int,
                        ) ==> #[trigger] guesses@.contains((r, c)),
                decreases 5 - col,
            {
                let cell = self.grid.cell(row, col);
                let ghost before = guesses@;
                if !cell.is_known() && !cell.has(0) {
                    guesses.push((row, col));
                    assert(guesses@[before.len() as int] == (row, col));
                }
                assert forall|r: usize, c: usize|
                    r < 5 && c < 5 && 5 * r + c < 5 * row + col + 1 && self@.safe_at(
                        r as int,
                        c as int,
                    ) implies #[trigger] guesses@.contains((r, c)) by {
                    if 5 * r + c < 5 * row + col {
                        assert(before.contains((r, c)));
                        let i = choose|i: int| 0 <= i < before.len() && before[i] == (r, c);
                        assert(guesses@[i] == (r, c));
                    } else {
                        assert(r == row && c == col);
                    }
                }
                col = col + 1;
            }
            row = row + 1;
        }
        guesses
    }

    /// The rows and the columns of the game as lines, each with its constraint.
    pub fn sections(&self) -> (lines: (Vec<Section>, Vec<Section>))
        requires
            self@.wf(),
        ensures
            lines.0.len() == 5,
            lines.1.len() == 5,
            forall|i: int|
                0 <= i < 5 ==> domains((#[trigger] lines.0[i]).section@) == self@.row(i)
                    && lines.0[i].constraint == self@.constraints[i],
            forall|i: int|
                0 <= i < 5 ==> domains((#[trigger] lines.1[i]).section@) == self@.col(i)
                    && lines.1[i].constraint == self@.constraints[5 + i],
    {
        let mut row_sections: Vec<Section> = Vec::new();
        let mut col_sections: Vec<Section> = Vec::new();
        let mut i: usize = 0;
        while i < 5
            invariant
                i <= 5,
                self@.wf(),
                row_sections.len() == i,
                forall|j: int|
                    0 <= j < i ==> domains((#[trigger] row_sections[j]).section@) == self@.row(j)
                        && row_sections[j].constraint == self@.constraints[j],
            decreases 5 - i,
        {
            row_sections.push(Section::new(self.grid.row(i), self.constraints[i]));
            i = i + 1;
        }
        let mut i: usize = 0;
        while i < 5
            invariant
                i <= 5,
                self@.wf(),
                col_sections.len() == i,
                forall|j: int|
                    0 <= j < i ==> domains((#[trigger] col_sections[j]).section@) == self@.col(j)
                        && col_sections[j].constraint == self@.constraints[5 + j],
            decreases 5 - i,
        {
            col_sections.push(Section::new(self.grid.col(i), self.constraints[5 + i]));
            i = i + 1;
        }
        (row_sections, col_sections)
    }

    /// One round of deduction: every row and every column is solved on its
    /// own, and each cell keeps the values that both its row and its column
    /// leave possible. No cell gains a value, and the constraints stay.
    pub fn simplify(&self) -> (next: Self)
        requires
            self@.wf(),
        ensures
            next@ == self@.simplified(),
            next@.wf(),
            forall|k: int| 0 <= k < 25 ==> (#[trigger] next@.cells[k]).subset_of(self@.cells[k]),
    {
        let (row_sections, col_sections) = self.sections();
        let rows = simplify_each(&row_sections);
        let cols = simplify_each(&col_sections);
        proof {
            assert forall|i: int| 0 <= i < 5 implies (#[trigger] rows@[i]).section.len() >= 5 by {
                assert(domains(rows[i].section@).len() == self@.row(i).len());
            }
            assert forall|i: int| 0 <= i < 5 implies (#[trigger] cols@[i]).section.len() >= 5 by {
                assert(domains(cols[i].section@).len() == self@.col(i).len());
            }
        }
        let next = Self::from_sections(rows.as_slice(), cols.as_slice());
        proof {
            assert forall|k: int| 0 <= k < 25 implies next@.cells[k] == self@.simplified().cells[k] by {
                let r = k / 5;
                let c = k % 5;
                assert(domains(rows[r].section@)[c] == self@.by_row(r, c));
                assert(domains(cols[c].section@)[r] == self@.by_col(r, c));
            }
            assert(next@.cells =~= self@.simplified().cells);
            assert(next@.constraints =~= self@.constraints);
            self@.lemma_simplified_shrinks();
        }
        next
    }

    /// Deduction to the end: rounds are repeated until one changes nothing.
    /// The result is the first state in that chain that a further round leaves
    /// as it is.
    pub fn simplify_complete(&self) -> (fixed: Self)
        requires
            self@.wf(),
        ensures
            fixed@ == self@.fixpoint(),
            fixed@.wf(),
            fixed@.simplified() == fixed@,
    {
        proof {
            self@.lemma_fixpoint_is_fixed();
        }
        let mut next = self.simplify();
        if next.grid.same_as(&self.grid) {
            assert(next@ == self@);
            return next;
        }
        loop
            invariant
                self@.wf(),
                next@.wf(),
                next@.fixpoint() == self@.fixpoint(),
            decreases weight(next@.cells),
        {
            let after = next.simplify();
            if after.grid.same_as(&next.grid) {
                assert(after@ == next@);
                return after;
            }
            proof {
                next@.lemma_simplified_lighter();
            }
            next = after;
        }
    }
}

} // verus!
