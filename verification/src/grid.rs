//! The grid: 25 cells, stored row by row.

use vstd::prelude::*;
use crate::cell::{full_domain, resolved, restrict, GCell};
use crate::lines::{col_of, row_of};
use crate::solver::domains;

verus! {

/// The cells of the puzzle. Cell (`row`, `col`) stands at index `5 * row + col`.
#[derive(Debug, Clone, PartialEq, Eq)]
pub struct Grid {
    grid: Vec<GCell>,
}

impl View for Grid {
    type V = Seq<Set<u8>>;

    closed spec fn view(&self) -> Seq<Set<u8>> {
        domains(self.grid@)
    }
}

impl Grid {
    /// A grid has 25 cells.
    pub open spec fn wf(&self) -> bool {
        self@.len() == 25
    }

    /// Every cell of a grid holds values from 0 to 3 only.
    pub proof fn lemma_within(self)
        ensures
            forall|k: int| 0 <= k < self@.len() ==> (#[trigger] self@[k]).subset_of(full_domain()),
    {
        assert forall|k: int| 0 <= k < self@.len() implies (#[trigger] self@[k]).subset_of(
            full_domain(),
        ) by {
            self.grid@[k].lemma_range();
        }
    }

    /// The grid of which nothing is known: every value is possible everywhere.
    pub fn new() -> (g: Self)
        ensures
            g.wf(),
            g@ == Seq::new(25, |k: int| full_domain()),
    {
        let mut cells: Vec<GCell> = Vec::new();
        while cells.len() < 25
            invariant
                cells.len() <= 25,
                forall|k: int| 0 <= k < cells.len() ==> (#[trigger] cells[k])@ == full_domain(),
            decreases 25 - cells.len(),
        {
            cells.push(GCell::new());
        }
        let g = Grid { grid: cells };
        assert(g@ =~= Seq::new(25, |k: int| full_domain()));
        g
    }

    /// The grid with the given cells, row by row.
    pub fn from_cells(cells: Vec<GCell>) -> (g: Self)
        requires
            cells.len() == 25,
        ensures
            g.wf(),
            g@ == domains(cells@),
    {
        Grid { grid: cells }
    }

    /// The cells of row `row`, from left to right.
    pub fn row(&self, row: usize) -> (line: Vec<GCell>)
        requires
            self.wf(),
            row < 5,
        ensures
            domains(line@) == row_of(self@, row as int),
    {
        let mut line: Vec<GCell> = Vec::new();
        let mut i: usize = 0;
        while i < 5
            invariant
                i <= 5,
                row < 5,
                self.grid.len() == 25,
                line.len() == i,
                forall|j: int| 0 <= j < i ==> line[j] == self.grid[5 * row + j],
            decreases 5 - i,
        {
            line.push(self.grid[5 * row + i]);
            i = i + 1;
        }
        assert(domains(line@) =~= row_of(self@, row as int));
        line
    }

    /// The cells of column `col`, from top to bottom.
    pub fn col(&self, col: usize) -> (line: Vec<GCell>)
        requires
            self.wf(),
            col < 5,
        ensures
            domains(line@) == col_of(self@, col as int),
    {
        let mut line: Vec<GCell> = Vec::new();
        let mut i: usize = 0;
        while i < 5
            invariant
                i <= 5,
                col < 5,
                self.grid.len() == 25,
                line.len() == i,
                forall|j: int| 0 <= j < i ==> line[j] == self.grid[col + 5 * j],
            decreases 5 - i,
        {
            line.push(self.grid[col + 5 * i]);
            i = i + 1;
        }
        assert(domains(line@) =~= col_of(self@, col as int));
        line
    }

    /// The grid after a guess of `val` at (`row`, `col`): that cell becomes
    /// `{val}` where `val` was possible there. A position outside the grid, or
    /// a value that was not possible, leaves the grid as it is.
    pub fn set(&self, row: usize, col: usize, val: u8) -> (g: Self)
        requires
            self.wf(),
        ensures
            g.wf(),
            g@ == if row < 5 && col < 5 {
                self@.update(5 * row + col, restrict(self@[5 * row + col], val))
            } else {
                self@
            },
    {
        let mut cells = self.grid.clone();
        assert(cells@ =~= self.grid@);
        if row < 5 && col < 5 {
            cells[5 * row + col].set(val);
            assert(domains(cells@) =~= self@.update(
                5 * row + col,
                restrict(self@[5 * row + col], val),
            ));
        }
        Grid { grid: cells }
    }

    /// The cell at (`row`, `col`).
    pub fn cell(&self, row: usize, col: usize) -> (c: GCell)
        requires
            self.wf(),
            row < 5,
            col < 5,
        ensures
            c@ == self@[5 * row + col],
    {
        self.grid[5 * row + col]
    }

    /// Whether the puzzle is won: every cell is known, or open between 0 and 1
    /// only.
    pub fn complete(&self) -> (done: bool)
        ensures
            done == forall|k: int| 0 <= k < self@.len() ==> resolved(#[trigger] self@[k]),
    {
        let mut k: usize = 0;
        while k < self.grid.len()
            invariant
                k <= self.grid.len(),
                forall|j: int| 0 <= j < k ==> resolved(#[trigger] self@[j]),
            decreases self.grid.len() - k,
        {
            if !self.grid[k].is_resolved() {
                assert(!resolved(self@[k as int]));
                return false;
            }
            k = k + 1;
        }
        true
    }

    /// Whether two grids allow the same values in every cell.
    pub fn same_as(&self, other: &Grid) -> (same: bool)
        ensures
            same == (self@ == other@),
    {
        if self.grid.len() != other.grid.len() {
            assert(self@.len() != other@.len());
            return false;
        }
        let mut k: usize = 0;
        while k < self.grid.len()
            invariant
                k <= self.grid.len(),
                self.grid.len() == other.grid.len(),
                forall|j: int| 0 <= j < k ==> self@[j] == other@[j],
            decreases self.grid.len() - k,
        {
            if self.grid[k] != other.grid[k] {
                proof {
                    if self@[k as int] == other@[k as int] {
                        self.grid@[k as int].lemma_same_values(other.grid@[k as int]);
                    }
                }
                return false;
            }
            k = k + 1;
        }
        assert(self@ =~= other@);
        true
    }
}

} // verus!
