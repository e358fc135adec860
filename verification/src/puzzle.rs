//! The puzzle as mathematics: 25 domains, ten constraints, and what one round
//! of deduction makes of them.

use vstd::prelude::*;
use vstd::set_lib::lemma_len_subset;
use crate::cell::{full_domain, resolved, restrict, riskless};
use crate::constraint::Constraint;
use crate::lines::{col_of, row_of};
use crate::solver::{lemma_reduced_within, reduced};

verus! {

/// The number of values that the domains `cells` hold between them.
pub open spec fn weight(cells: Seq<Set<u8>>) -> nat
    decreases cells.len(),
{
    if cells.len() == 0 {
        0
    } else {
        weight(cells.drop_last()) + cells.last().len()
    }
}

/// Domains that lie within others, cell by cell, weigh no more; and less where
/// the two differ.
pub proof fn lemma_weight_within(a: Seq<Set<u8>>, b: Seq<Set<u8>>)
    requires
        a.len() == b.len(),
        forall|k: int| 0 <= k < b.len() ==> (#[trigger] b[k]).finite(),
        forall|k: int| 0 <= k < a.len() ==> (#[trigger] a[k]).subset_of(b[k]),
    ensures
        weight(a) <= weight(b),
        a != b ==> weight(a) < weight(b),
    decreases a.len(),
{
    if a.len() > 0 {
        let n = a.len() - 1;
        lemma_weight_within(a.drop_last(), b.drop_last());
        assert(a[n].subset_of(b[n]));
        assert(b[n].finite());
        lemma_len_subset(a[n], b[n]);
        if a[n] != b[n] {
            if forall|v: u8| b[n].contains(v) ==> a[n].contains(v) {
                assert(a[n] =~= b[n]);
            }
            let v = choose|v: u8| b[n].contains(v) && !a[n].contains(v);
            a[n].lemma_subset_not_in_lt(b[n], v);
        } else if a.drop_last() == b.drop_last() {
            assert forall|k: int| 0 <= k < a.len() implies a[k] == b[k] by {
                if k < n {
                    assert(a.drop_last()[k] == b.drop_last()[k]);
                }
            }
            assert(a =~= b);
        }
    } else {
        assert(a =~= b);
    }
}

/// The state of a puzzle: the domains of its 25 cells, row by row, and its ten
/// constraints, those of the five rows before those of the five columns.
pub struct Puzzle {
    pub cells: Seq<Set<u8>>,
    pub constraints: Seq<Constraint>,
}

impl Puzzle {
    /// 25 cells with values from 0 to 3, and ten constraints.
    pub open spec fn wf(self) -> bool {
        &&& self.cells.len() == 25
        &&& self.constraints.len() == 10
        &&& forall|k: int| 0 <= k < 25 ==> (#[trigger] self.cells[k]).subset_of(full_domain())
    }

    /// The puzzle of which only the constraints are known.
    pub open spec fn fresh(constraints: Seq<Constraint>) -> Puzzle {
        Puzzle { cells: Seq::new(25, |k: int| full_domain()), constraints }
    }

    /// The domains of row `r`.
    pub open spec fn row(self, r: int) -> Seq<Set<u8>> {
        row_of(self.cells, r)
    }

    /// The domains of column `c`.
    pub open spec fn col(self, c: int) -> Seq<Set<u8>> {
        col_of(self.cells, c)
    }

    /// What row `r` alone leaves possible at its position `c`.
    pub open spec fn by_row(self, r: int, c: int) -> Set<u8> {
        reduced(self.row(r), self.constraints[r])[c]
    }

    /// What column `c` alone leaves possible at its position `r`.
    pub open spec fn by_col(self, r: int, c: int) -> Set<u8> {
        reduced(self.col(c), self.constraints[5 + c])[r]
    }

    /// One round of deduction: each cell keeps the values that both its row
    /// and its column leave possible there.
    pub open spec fn simplified(self) -> Puzzle {
        Puzzle {
            cells: Seq::new(
                25,
                |k: int| self.by_row(k / 5, k % 5).intersect(self.by_col(k / 5, k % 5)),
            ),
            constraints: self.constraints,
        }
    }

    /// Deduction repeated until a round changes nothing.
    pub open spec fn fixpoint(self) -> Puzzle
        decreases weight(self.cells),
        when self.wf()
        via Self::fixpoint_decreases
    {
        if self.simplified() == self {
            self
        } else {
            self.simplified().fixpoint()
        }
    }

    #[via_fn]
    proof fn fixpoint_decreases(self) {
        if self.simplified() != self {
            self.lemma_simplified_lighter();
        }
    }

    /// The puzzle after a guess of `val` at (`row`, `col`). A position outside
    /// the grid, or a value that was not possible there, changes nothing.
    pub open spec fn guess(self, row: int, col: int, val: u8) -> Puzzle {
        if 0 <= row < 5 && 0 <= col < 5 {
            Puzzle {
                cells: self.cells.update(5 * row + col, restrict(self.cells[5 * row + col], val)),
                constraints: self.constraints,
            }
        } else {
            self
        }
    }

    /// Whether every cell is known, or open between harmless values only.
    pub open spec fn complete(self) -> bool {
        forall|k: int| 0 <= k < self.cells.len() ==> resolved(#[trigger] self.cells[k])
    }

    /// Whether the cell at (`row`, `col`) is open and cannot hold a zero.
    pub open spec fn safe_at(self, row: int, col: int) -> bool {
        riskless(self.cells[5 * row + col])
    }

    /// A round of deduction only removes values: every domain of the result
    /// lies within the domain it came from.
    pub proof fn lemma_simplified_shrinks(self)
        requires
            self.wf(),
        ensures
            self.simplified().wf(),
            forall|k: int|
                0 <= k < 25 ==> (#[trigger] self.simplified().cells[k]).subset_of(self.cells[k]),
    {
        assert forall|k: int| 0 <= k < 25 implies (#[trigger] self.simplified().cells[k]).subset_of(
            self.cells[k],
        ) by {
            let r = k / 5;
            let c = k % 5;
            lemma_reduced_within(self.row(r), self.constraints[r]);
            assert(self.row(r)[c] == self.cells[k]);
            assert(self.by_row(r, c).subset_of(self.row(r)[c]));
        }
        assert forall|k: int| 0 <= k < 25 implies (#[trigger] self.simplified().cells[k]).subset_of(
            full_domain(),
        ) by {
            assert(self.cells[k].subset_of(full_domain()));
        }
    }

    /// A round of deduction that changes the puzzle leaves fewer values in it.
    pub proof fn lemma_simplified_lighter(self)
        requires
            self.wf(),
            self.simplified() != self,
        ensures
            weight(self.simplified().cells) < weight(self.cells),
    {
        self.lemma_simplified_shrinks();
        assert forall|k: int| 0 <= k < 25 implies (#[trigger] self.cells[k]).finite() by {
            assert(self.cells[k].subset_of(full_domain()));
            lemma_full_domain_finite();
            lemma_len_subset(self.cells[k], full_domain());
        }
        lemma_weight_within(self.simplified().cells, self.cells);
    }

    /// Deduction to the fixpoint ends in a state that a further round leaves as
    /// it is, and that lies within the state it started from.
    pub proof fn lemma_fixpoint_is_fixed(self)
        requires
            self.wf(),
        ensures
            self.fixpoint().wf(),
            self.fixpoint().simplified() == self.fixpoint(),
            forall|k: int|
                0 <= k < 25 ==> (#[trigger] self.fixpoint().cells[k]).subset_of(self.cells[k]),
        decreases weight(self.cells),
    {
        if self.simplified() != self {
            self.lemma_simplified_shrinks();
            self.lemma_simplified_lighter();
            self.simplified().lemma_fixpoint_is_fixed();
            assert forall|k: int| 0 <= k < 25 implies (#[trigger] self.fixpoint().cells[k]).subset_of(
                self.cells[k],
            ) by {
                assert(self.simplified().fixpoint().cells[k].subset_of(self.simplified().cells[k]));
                assert(self.simplified().cells[k].subset_of(self.cells[k]));
            }
        }
    }
}

/// The full domain is the finite set {0, 1, 2, 3}.
pub proof fn lemma_full_domain_finite()
    ensures
        full_domain().finite(),
        full_domain().len() == 4,
{
    assert(full_domain() =~= set![0u8, 1u8, 2u8, 3u8]);
}

} // verus!
