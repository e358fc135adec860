//! How often each value occurs in each cell among the solutions of its row and
//! of its column, and the weights that the two counts give a cell's values.
//!
//! The weights are exact integers. Taking a cell's row and column as
//! independent, the chance that the cell holds `v` is the weight of `v` over
//! the sum of the cell's four weights: an estimate, since a row and a column
//! that cross are not independent.

use vstd::prelude::*;
use crate::cell::full_domain;
use crate::constraint::Constraint;
use crate::game::Game;
use crate::puzzle::Puzzle;
use crate::solver::{
    domains, enumerates, is_solution, lemma_enumeration_len, pinned, solution_set, solutions,
    spelled_out, tuples_of, Section,
};

verus! {

/// The solutions of `line` under `c` that have the value `v` at position `i`.
pub open spec fn solutions_with(line: Seq<Set<u8>>, c: Constraint, i: int, v: u8) -> Set<Seq<u8>> {
    Set::new(|t: Seq<u8>| is_solution(t, line, c) && t[i] == v)
}

/// How many solutions of `line` under `c` have the value `v` at position `i`.
pub open spec fn tally(line: Seq<Set<u8>>, c: Constraint, i: int, v: u8) -> nat {
    solutions_with(line, c, i, v).len()
}

/// The weight of the value `v` in the cell at (`row`, `col`): the number of
/// solutions of the row that have `v` there, times the number of solutions of
/// the column that have `v` there.
pub open spec fn odds_weight(p: Puzzle, row: int, col: int, v: u8) -> nat {
    tally(p.row(row), p.constraints[row], col, v) * tally(p.col(col), p.constraints[5 + col], row, v)
}

/// How many of the tuples `ts` have the value `v` at position `i`.
spec fn count_in(ts: Seq<Seq<u8>>, i: int, v: u8) -> nat
    decreases ts.len(),
{
    if ts.len() == 0 {
        0
    } else {
        count_in(ts.drop_last(), i, v) + if ts.last()[i] == v {
            1nat
        } else {
            0nat
        }
    }
}

/// The tuples among `ts` that have the value `v` at position `i`.
spec fn picked(ts: Seq<Seq<u8>>, i: int, v: u8) -> Set<Seq<u8>> {
    Set::new(|t: Seq<u8>| ts.contains(t) && t[i] == v)
}

proof fn lemma_count_in_bound(ts: Seq<Seq<u8>>, i: int, v: u8)
    ensures
        count_in(ts, i, v) <= ts.len(),
    decreases ts.len(),
{
    if ts.len() > 0 {
        lemma_count_in_bound(ts.drop_last(), i, v);
    }
}

proof fn lemma_count_in_picked(ts: Seq<Seq<u8>>, i: int, v: u8)
    requires
        ts.no_duplicates(),
    ensures
        picked(ts, i, v).finite(),
        picked(ts, i, v).len() == count_in(ts, i, v),
    decreases ts.len(),
{
    if ts.len() == 0 {
        assert(picked(ts, i, v) =~= Set::<Seq<u8>>::empty());
    } else {
        let before = ts.drop_last();
        let x = ts.last();
        lemma_count_in_picked(before, i, v);
        assert forall|t: Seq<u8>| ts.contains(t) <==> before.contains(t) || t == x by {
            if ts.contains(t) {
                let j = choose|j: int| 0 <= j < ts.len() && ts[j] == t;
                if j < before.len() {
                    assert(before[j] == t);
                }
            }
            if before.contains(t) {
                let j = choose|j: int| 0 <= j < before.len() && before[j] == t;
                assert(ts[j] == t);
            }
            if t == x {
                assert(ts[ts.len() - 1] == t);
            }
        }
        if before.contains(x) {
            let j = choose|j: int| 0 <= j < before.len() && before[j] == x;
            assert(ts[j] == ts[ts.len() - 1]);
        }
        if x[i] == v {
            assert(picked(ts, i, v) =~= picked(before, i, v).insert(x));
        } else {
            assert(picked(ts, i, v) =~= picked(before, i, v));
        }
    }
}

proof fn lemma_count_in_total(ts: Seq<Seq<u8>>, i: int)
    requires
        forall|j: int| 0 <= j < ts.len() ==> (#[trigger] ts[j])[i] <= 3,
    ensures
        count_in(ts, i, 0) + count_in(ts, i, 1) + count_in(ts, i, 2) + count_in(ts, i, 3)
            == ts.len(),
    decreases ts.len(),
{
    if ts.len() > 0 {
        assert(ts[ts.len() - 1][i] <= 3);
        assert forall|j: int| 0 <= j < ts.drop_last().len() implies (#[trigger] ts.drop_last()[j])[i]
            <= 3 by {
            assert(ts[j][i] <= 3);
        }
        lemma_count_in_total(ts.drop_last(), i);
    }
}

proof fn lemma_count_in_tally(
    ts: Seq<Seq<u8>>,
    line: Seq<Set<u8>>,
    c: Constraint,
    i: int,
    v: u8,
)
    requires
        enumerates(ts, line, c),
    ensures
        count_in(ts, i, v) == tally(line, c, i, v),
{
    lemma_count_in_picked(ts, i, v);
    assert(picked(ts, i, v) =~= solutions_with(line, c, i, v));
}

/// The weights that the counts of a cell's row and of its column give its four
/// values: value by value, the product of the two counts.
pub fn combine_stats(left: [usize; 4], right: [usize; 4]) -> (weights: [u128; 4])
    ensures
        forall|v: int| 0 <= v < 4 ==> #[trigger] weights[v] == left[v] * right[v],
{
    let mut new: [u128; 4] = [0, 0, 0, 0];
    let mut i: usize = 0;
    while i < 4
        invariant
            i <= 4,
            forall|v: int| 0 <= v < i ==> #[trigger] new[v] == left[v] * right[v],
        decreases 4 - i,
    {
        let a: u128 = left[i] as u128;
        let b: u128 = right[i] as u128;
        assert(a * b <= 0xffff_ffff_ffff_ffff * 0xffff_ffff_ffff_ffff) by (nonlinear_arith)
            requires
                0 <= a <= 0xffff_ffff_ffff_ffff,
                0 <= b <= 0xffff_ffff_ffff_ffff,
        ;
        new[i] = a * b;
        i = i + 1;
    }
    new
}

impl Section {
    /// For each position of the line and each value from 0 to 3, the number of
    /// solutions of the line that have the value at the position. The four
    /// counts of a position add up to the number of solutions.
    pub fn stats(&self) -> (counts: Vec<[usize; 4]>)
        ensures
            counts.len() == self.section.len(),
            forall|i: int, v: u8|
                0 <= i < counts.len() && v <= 3 ==> #[trigger] counts[i][v as int] == tally(
                    domains(self.section@),
                    self.constraint,
                    i,
                    v,
                ),
            forall|i: int|
                0 <= i < counts.len() ==> (#[trigger] counts[i])[0] + counts[i][1] + counts[i][2]
                    + counts[i][3] == solution_set(domains(self.section@), self.constraint).len(),
    {
        let n = self.section.len();
        let ghost line = domains(self.section@);
        let mut stats: Vec<[usize; 4]> = Vec::new();
        while stats.len() < n
            invariant
                stats.len() <= n,
                forall|i: int, v: int|
                    0 <= i < stats.len() && 0 <= v < 4 ==> #[trigger] stats[i][v] == 0,
            decreases n - stats.len(),
        {
            stats.push([0, 0, 0, 0]);
        }
        let sols = solutions(self.section.clone(), self.constraint);
        let ghost ts = tuples_of(sols@);
        let mut k: usize = 0;
        while k < sols.len()
            invariant
                k <= sols.len(),
                stats.len() == n,
                n == line.len(),
                line == domains(self.section@),
                ts == tuples_of(sols@),
                enumerates(ts, line, self.constraint),
                spelled_out(sols@),
                forall|i: int, v: u8|
                    0 <= i < n && v <= 3 ==> #[trigger] stats[i][v as int] == count_in(
                        ts.take(k as int),
                        i,
                        v,
                    ),
            decreases sols.len() - k,
        {
            proof {
                assert(ts.contains(ts[k as int]));
                assert(is_solution(ts[k as int], line, self.constraint));
                assert(domains(sols[k as int]@) == pinned(ts[k as int]));
                assert(domains(sols[k as int]@).len() == sols[k as int]@.len());
                assert(ts.take(k + 1).drop_last() =~= ts.take(k as int));
                assert forall|j: int| 0 <= j < n implies (#[trigger] ts[k as int][j]) <= 3 by {
                    assert(line[j].contains(ts[k as int][j]));
                    self.section@[j].lemma_range();
                }
            }
            let mut i: usize = 0;
            while i < n
                invariant
                    i <= n,
                    k < sols.len(),
                    stats.len() == n,
                    n == line.len(),
                    n == sols[k as int].len(),
                    ts == tuples_of(sols@),
                    ts[k as int].len() == n,
                    domains(sols[k as int]@) == pinned(ts[k as int]),
                    ts.take(k + 1).drop_last() == ts.take(k as int),
                    forall|j: int| 0 <= j < n ==> (#[trigger] ts[k as int][j]) <= 3,
                    forall|j: int, v: u8|
                        0 <= j < i && v <= 3 ==> #[trigger] stats[j][v as int] == count_in(
                            ts.take(k + 1),
                            j,
                            v,
                        ),
                    forall|j: int, v: u8|
                        i <= j < n && v <= 3 ==> #[trigger] stats[j][v as int] == count_in(
                            ts.take(k as int),
                            j,
                            v,
                        ),
                decreases n - i,
            {
                proof {
                    assert(domains(sols[k as int]@)[i as int] == pinned(ts[k as int])[i as int]);
                    assert(set![ts[k as int][i as int]].contains(ts[k as int][i as int]));
                }
                let val = sols[k][i].value().unwrap();
                assert(val == ts[k as int][i as int]);
                let mut row = stats[i];
                proof {
                    lemma_count_in_bound(ts.take(k as int), i as int, val);
                }
                row[val as usize] = row[val as usize] + 1;
                stats.set(i, row);
                i = i + 1;
            }
            k = k + 1;
        }
        proof {
            assert(ts.take(ts.len() as int) =~= ts);
            lemma_enumeration_len(ts, line, self.constraint);
            assert forall|i: int, v: u8| 0 <= i < n && v <= 3 implies #[trigger] stats[i][v as int]
                == tally(line, self.constraint, i, v) by {
                lemma_count_in_tally(ts, line, self.constraint, i, v);
            }
            assert forall|i: int| 0 <= i < n implies (#[trigger] stats[i])[0] + stats[i][1]
                + stats[i][2] + stats[i][3] == ts.len() by {
                assert forall|j: int| 0 <= j < ts.len() implies (#[trigger] ts[j])[i] <= 3 by {
                    assert(ts.contains(ts[j]));
                    assert(line[i].contains(ts[j][i]));
                    self.section@[i].lemma_range();
                }
                lemma_count_in_total(ts, i);
                assert(stats[i][0u8 as int] == count_in(ts, i, 0));
                assert(stats[i][1u8 as int] == count_in(ts, i, 1));
                assert(stats[i][2u8 as int] == count_in(ts, i, 2));
                assert(stats[i][3u8 as int] == count_in(ts, i, 3));
            }
        }
        stats
    }
}

impl Game {
    /// For each cell, row by row, its position and the weights of its four
    /// values: for the value `v`, the number of solutions of the cell's row
    /// that have `v` there times the number of solutions of its column that
    /// have `v` there.
    pub fn approximate_odds(&self) -> (odds: Vec<(usize, usize, [u128; 4])>)
        requires
            self@.wf(),
        ensures
            odds.len() == 25,
            forall|k: int|
                0 <= k < 25 ==> (#[trigger] odds[k]).0 == k / 5 && odds[k].1 == k % 5,
            forall|k: int, v: u8|
                0 <= k < 25 && v <= 3 ==> #[trigger] odds[k].2[v as int] == odds_weight(
                    self@,
                    k / 5,
                    k % 5,
                    v,
                ),
    {
        let (row_sections, col_sections) = self.sections();
        let mut row_stats: Vec<Vec<[usize; 4]>> = Vec::new();
        let mut col_stats: Vec<Vec<[usize; 4]>> = Vec::new();
        let mut i: usize = 0;
        while i < 5
            invariant
                i <= 5,
                row_sections.len() == 5,
                col_sections.len() == 5,
                row_stats.len() == i,
                col_stats.len() == i,
                forall|r: int|
                    0 <= r < 5 ==> domains((#[trigger] row_sections[r]).section@) == self@.row(r)
                        && row_sections[r].constraint == self@.constraints[r],
                forall|c: int|
                    0 <= c < 5 ==> domains((#[trigger] col_sections[c]).section@) == self@.col(c)
                        && col_sections[c].constraint == self@.constraints[5 + c],
                forall|r: int| 0 <= r < i ==> (#[trigger] row_stats[r]).len() == 5,
                forall|c: int| 0 <= c < i ==> (#[trigger] col_stats[c]).len() == 5,
                forall|r: int, c: int, v: u8|
                    0 <= r < i && 0 <= c < 5 && v <= 3 ==> #[trigger] row_stats[r][c][v as int]
                        == tally(self@.row(r), self@.constraints[r], c, v),
                forall|r: int, c: int, v: u8|
                    0 <= c < i && 0 <= r < 5 && v <= 3 ==> #[trigger] col_stats[c][r][v as int]
                        == tally(self@.col(c), self@.constraints[5 + c], r, v),
            decreases 5 - i,
        {
            assert(domains(row_sections[i as int].section@).len() == self@.row(i as int).len());
            assert(domains(col_sections[i as int].section@).len() == self@.col(i as int).len());
            row_stats.push(row_sections[i].stats());
            col_stats.push(col_sections[i].stats());
            i = i + 1;
        }
        let mut stats: Vec<(usize, usize, [u128; 4])> = Vec::new();
        let mut i: usize = 0;
        while i < 5
            invariant
                i <= 5,
                row_stats.len() == 5,
                col_stats.len() == 5,
                forall|r: int| 0 <= r < 5 ==> (#[trigger] row_stats[r]).len() == 5,
                forall|c: int| 0 <= c < 5 ==> (#[trigger] col_stats[c]).len() == 5,
                forall|r: int, c: int, v: u8|
                    0 <= r < 5 && 0 <= c < 5 && v <= 3 ==> #[trigger] row_stats[r][c][v as int]
                        == tally(self@.row(r), self@.constraints[r], c, v),
                forall|r: int, c: int, v: u8|
                    0 <= c < 5 && 0 <= r < 5 && v <= 3 ==> #[trigger] col_stats[c][r][v as int]
                        == tally(self@.col(c), self@.constraints[5 + c], r, v),
                stats.len() == 5 * i,
                forall|k: int|
                    0 <= k < stats.len() ==> (#[trigger] stats[k]).0 == k / 5 && stats[k].1 == k
                        % 5,
                forall|k: int, v: u8|
                    0 <= k < stats.len() && v <= 3 ==> #[trigger] stats[k].2[v as int]
                        == odds_weight(self@, k / 5, k % 5, v),
            decreases 5 - i,
        {
            let mut j: usize = 0;
            while j < 5
                invariant
                    i < 5,
                    j <= 5,
                    row_stats.len() == 5,
                    col_stats.len() == 5,
                    forall|r: int| 0 <= r < 5 ==> (#[trigger] row_stats[r]).len() == 5,
                    forall|c: int| 0 <= c < 5 ==> (#[trigger] col_stats[c]).len() == 5,
                    forall|r: int, c: int, v: u8|
                        0 <= r < 5 && 0 <= c < 5 && v <= 3 ==> #[trigger] row_stats[r][c][v as int]
                            == tally(self@.row(r), self@.constraints[r], c, v),
                    forall|r: int, c: int, v: u8|
                        0 <= c < 5 && 0 <= r < 5 && v <= 3 ==> #[trigger] col_stats[c][r][v as int]
                            == tally(self@.col(c), self@.constraints[5 + c], r, v),
                    stats.len() == 5 * i + j,
                    forall|k: int|
                        0 <= k < stats.len() ==> (#[trigger] stats[k]).0 == k / 5 && stats[k].1
                            == k % 5,
                    forall|k: int, v: u8|
                        0 <= k < stats.len() && v <= 3 ==> #[trigger] stats[k].2[v as int]
                            == odds_weight(self@, k / 5, k % 5, v),
                decreases 5 - j,
            {
                let r = row_stats[i][j];
                let c = col_stats[j][i];
                let s = combine_stats(r, c);
                proof {
                    assert forall|v: u8| v <= 3 implies #[trigger] s[v as int] == odds_weight(
                        self@,
                        i as int,
                        j as int,
                        v,
                    ) by {
                        assert(row_stats[i as int][j as int][v as int] == tally(
                            self@.row(i as int),
                            self@.constraints[i as int],
                            j as int,
                            v,
                        ));
                        assert(col_stats[j as int][i as int][v as int] == tally(
                            self@.col(j as int),
                            self@.constraints[5 + j],
                            i as int,
                            v,
                        ));
                    }
                }
                stats.push((i, j, s));
                j = j + 1;
            }
            i = i + 1;
        }
        stats
    }
}

} // verus!
