//! The line solver: every way to fill a line of cells that meets the line's
//! constraint, and what those ways leave possible in each cell.

use vstd::prelude::*;
use crate::cell::GCell;
use crate::constraint::Constraint;
use crate::lines::{lemma_line_bounds, line_sum, line_zeros};

verus! {

/// The domains of a line of cells.
pub open spec fn domains(cells: Seq<GCell>) -> Seq<Set<u8>> {
    Seq::new(cells.len(), |i: int| cells[i]@)
}

/// Whether `t` gives every position of `line` a value from that position's
/// domain.
pub open spec fn fits(t: Seq<u8>, line: Seq<Set<u8>>) -> bool {
    &&& t.len() == line.len()
    &&& forall|i: int| 0 <= i < t.len() ==> #[trigger] line[i].contains(t[i])
}

/// Whether `t` is a way to fill `line` under the constraint `c`. A line
/// without cells has no solution.
pub open spec fn is_solution(t: Seq<u8>, line: Seq<Set<u8>>, c: Constraint) -> bool {
    t.len() > 0 && fits(t, line) && c.met_by(t)
}

/// Whether `ts` lists the solutions of `line` under `c`: all of them, each once.
pub open spec fn enumerates(ts: Seq<Seq<u8>>, line: Seq<Set<u8>>, c: Constraint) -> bool {
    &&& ts.no_duplicates()
    &&& forall|t: Seq<u8>|
        #![trigger ts.contains(t)]
        #![trigger is_solution(t, line, c)]
        ts.contains(t) <==> is_solution(t, line, c)
}

/// The order in which the solver lists tuples: `a` comes before `b` where, at
/// the last position at which the two differ, `a` has the smaller value.
pub open spec fn precedes(a: Seq<u8>, b: Seq<u8>) -> bool {
    &&& a.len() == b.len()
    &&& exists|i: int|
        #![trigger a[i]]
        0 <= i < a.len() && a[i] < b[i] && forall|j: int|
            #![trigger a[j]]
            i < j < a.len() ==> a[j] == b[j]
}

/// Whether each tuple of `ts` comes before all that follow it.
pub open spec fn ascending(ts: Seq<Seq<u8>>) -> bool {
    forall|j: int, k: int|
        #![trigger ts[j], ts[k]]
        0 <= j < k < ts.len() ==> precedes(ts[j], ts[k])
}

/// The solutions of `line` under `c`, as a set.
pub open spec fn solution_set(line: Seq<Set<u8>>, c: Constraint) -> Set<Seq<u8>> {
    Set::new(|t: Seq<u8>| is_solution(t, line, c))
}

/// Whether some solution of `line` under `c` has the value `v` at position `i`.
pub open spec fn admits(line: Seq<Set<u8>>, c: Constraint, i: int, v: u8) -> bool {
    exists|t: Seq<u8>| is_solution(t, line, c) && t[i] == v
}

/// What the constraint `c` leaves of the domains of `line`: at each position
/// the values that some solution has there.
pub open spec fn reduced(line: Seq<Set<u8>>, c: Constraint) -> Seq<Set<u8>> {
    Seq::new(line.len(), |i: int| Set::new(|v: u8| admits(line, c, i, v)))
}

/// The line of singleton domains that spells out the values `t`.
pub open spec fn pinned(t: Seq<u8>) -> Seq<Set<u8>> {
    Seq::new(t.len(), |i: int| set![t[i]])
}

/// The values of a line of known cells, position by position.
pub open spec fn tuple_of(sol: Seq<GCell>) -> Seq<u8> {
    Seq::new(sol.len(), |i: int| sol[i]@.choose())
}

/// The values of each of a list of lines of known cells.
pub open spec fn tuples_of(sols: Seq<Vec<GCell>>) -> Seq<Seq<u8>> {
    Seq::new(sols.len(), |k: int| tuple_of(sols[k]@))
}

/// Whether every cell of every line of `sols` is known.
pub open spec fn spelled_out(sols: Seq<Vec<GCell>>) -> bool {
    forall|k: int| 0 <= k < sols.len() ==> domains((#[trigger] sols[k])@) == pinned(tuple_of(sols[k]@))
}

/// What decides the second step of the solver's recursion: 0 where the last
/// cell of the line is known, 1 where it is open or the line is empty.
pub open spec fn open_end(cells: Seq<GCell>) -> nat {
    if cells.len() > 0 && cells.last()@.len() == 1 {
        0
    } else {
        1
    }
}

/// A list of all solutions without repeats is as long as the set of solutions
/// is large.
pub proof fn lemma_enumeration_len(ts: Seq<Seq<u8>>, line: Seq<Set<u8>>, c: Constraint)
    requires
        enumerates(ts, line, c),
    ensures
        solution_set(line, c).finite(),
        solution_set(line, c).len() == ts.len(),
{
    ts.unique_seq_to_set();
    assert(ts.to_set() =~= solution_set(line, c));
}

/// No value survives the reduction of a line that the line's own domain did not
/// allow.
pub proof fn lemma_reduced_within(line: Seq<Set<u8>>, c: Constraint)
    ensures
        reduced(line, c).len() == line.len(),
        forall|i: int|
            0 <= i < line.len() ==> (#[trigger] reduced(line, c)[i]).subset_of(line[i]),
{
    assert forall|i: int| 0 <= i < line.len() implies (#[trigger] reduced(line, c)[i]).subset_of(
        line[i],
    ) by {
        assert forall|v: u8| reduced(line, c)[i].contains(v) implies line[i].contains(v) by {
            let t = choose|t: Seq<u8>| is_solution(t, line, c) && t[i] == v;
            assert(line[i].contains(t[i]));
        }
    }
}

proof fn lemma_tuple_of_pinned(sol: Seq<GCell>, t: Seq<u8>)
    requires
        domains(sol) == pinned(t),
    ensures
        tuple_of(sol) == t,
{
    assert(sol.len() == domains(sol).len());
    assert(t.len() == pinned(t).len());
    assert forall|i: int| 0 <= i < sol.len() implies sol[i]@.choose() == t[i] by {
        assert(domains(sol)[i] == sol[i]@);
        assert(pinned(t)[i] == set![t[i]]);
        assert(set![t[i]].contains(t[i]));
    }
    assert(tuple_of(sol) =~= t);
}

proof fn lemma_fits_split(t: Seq<u8>, line: Seq<Set<u8>>)
    requires
        t.len() == line.len(),
        line.len() >= 1,
    ensures
        fits(t, line) <==> (fits(t.drop_last(), line.drop_last()) && line.last().contains(
            t.last(),
        )),
{
    let t0 = t.drop_last();
    let l0 = line.drop_last();
    if fits(t, line) {
        assert forall|i: int| 0 <= i < t0.len() implies #[trigger] l0[i].contains(t0[i]) by {
            assert(line[i].contains(t[i]));
        }
        assert(line[t.len() - 1].contains(t[t.len() - 1]));
    }
    if fits(t0, l0) && line.last().contains(t.last()) {
        assert forall|i: int| 0 <= i < t.len() implies #[trigger] line[i].contains(t[i]) by {
            if i < t.len() - 1 {
                assert(l0[i].contains(t0[i]));
            }
        }
    }
}

/// A line of one cell has at most one solution: the constraint's sum, where the
/// cell allows it and the zero count agrees with it.
proof fn lemma_single(line: Seq<Set<u8>>, c: Constraint)
    requires
        line.len() == 1,
    ensures
        forall|t: Seq<u8>| #[trigger]
            is_solution(t, line, c) <==> (t == seq![c.sum] && line[0].contains(c.sum) && ((c.sum
                == 0 && c.zeros == 1) || (c.sum != 0 && c.zeros == 0))),
{
    assert forall|t: Seq<u8>| #[trigger]
        is_solution(t, line, c) <==> (t == seq![c.sum] && line[0].contains(c.sum) && ((c.sum == 0
            && c.zeros == 1) || (c.sum != 0 && c.zeros == 0))) by {
        if t.len() == 1 {
            assert(t.drop_last().len() == 0);
            assert(line_sum(t.drop_last()) == 0);
            assert(line_zeros(t.drop_last()) == 0);
            assert(t.last() == t[0]);
            assert(line_sum(t) == t[0]);
            assert(line_zeros(t) == if t[0] == 0 {
                1int
            } else {
                0int
            });
            if is_solution(t, line, c) {
                assert(line[0].contains(t[0]));
                assert(t =~= seq![c.sum]);
            }
            if t == seq![c.sum] && line[0].contains(c.sum) {
                assert(fits(t, line));
            }
        }
    }
}

/// With the last cell known to be `val`, the solutions of a line are those of
/// the cells before it, under what the constraint leaves, each followed by
/// `val`.
proof fn lemma_known_end(
    prev: Seq<Seq<u8>>,
    next: Seq<Seq<u8>>,
    line: Seq<Set<u8>>,
    c: Constraint,
    rest: Constraint,
    val: u8,
)
    requires
        line.len() >= 2,
        line.last() == set![val],
        rest.sum == c.sum - val,
        rest.zeros == c.zeros - if val == 0 {
            1int
        } else {
            0int
        },
        enumerates(prev, line.drop_last(), rest),
        ascending(prev),
        next.len() == prev.len(),
        forall|k: int| 0 <= k < prev.len() ==> #[trigger] next[k] == prev[k].push(val),
    ensures
        enumerates(next, line, c),
        ascending(next),
{
    let l0 = line.drop_last();
    assert forall|j: int, k: int| 0 <= j < k < next.len() implies precedes(
        #[trigger] next[j],
        #[trigger] next[k],
    ) by {
        let a = prev[j];
        let b = prev[k];
        assert(precedes(a, b));
        let i = choose|i: int|
            #![trigger a[i]]
            0 <= i < a.len() && a[i] < b[i] && forall|m: int|
                #![trigger a[m]]
                i < m < a.len() ==> a[m] == b[m];
        assert(next[j][i] == a[i]);
        assert(next[k][i] == b[i]);
        assert forall|m: int| #![trigger next[j][m]] i < m < next[j].len() implies next[j][m]
            == next[k][m] by {
            if m < a.len() {
                assert(a[m] == b[m]);
            }
        }
        assert(0 <= i < next[j].len() && next[j][i] < next[k][i]);
    }
    assert forall|i: int, j: int| 0 <= i < next.len() && 0 <= j < next.len() && i != j implies next[i]
        != next[j] by {
        assert(next[i].drop_last() =~= prev[i]);
        assert(next[j].drop_last() =~= prev[j]);
    }
    assert forall|t: Seq<u8>| next.contains(t) implies is_solution(t, line, c) by {
        let k = choose|k: int| 0 <= k < next.len() && next[k] == t;
        assert(prev.contains(prev[k]));
        assert(is_solution(prev[k], l0, rest));
        assert(t.drop_last() =~= prev[k]);
        lemma_fits_split(t, line);
    }
    assert forall|t: Seq<u8>| is_solution(t, line, c) implies next.contains(t) by {
        lemma_fits_split(t, line);
        let t0 = t.drop_last();
        assert(t.last() == val);
        assert(is_solution(t0, l0, rest));
        assert(prev.contains(t0));
        let k = choose|k: int| 0 <= k < prev.len() && prev[k] == t0;
        assert(next[k] =~= t);
    }
}

/// A known last cell whose value the constraint cannot take leaves the line
/// without a solution.
proof fn lemma_known_end_pruned(line: Seq<Set<u8>>, c: Constraint, val: u8)
    requires
        line.len() >= 2,
        line.last() == set![val],
        val > c.sum || (val == 0 && c.zeros == 0),
    ensures
        enumerates(Seq::<Seq<u8>>::empty(), line, c),
{
    assert forall|t: Seq<u8>| !is_solution(t, line, c) by {
        if is_solution(t, line, c) {
            lemma_fits_split(t, line);
            lemma_line_bounds(t.drop_last());
        }
    }
}

/// With the last cell open, the solutions of a line are, value by value of that
/// cell, those of the line with the cell narrowed to the value.
proof fn lemma_open_end(
    acc: Seq<Seq<u8>>,
    batch: Seq<Seq<u8>>,
    line: Seq<Set<u8>>,
    c: Constraint,
    v: u8,
)
    requires
        line.len() >= 2,
        line.last().contains(v),
        acc.no_duplicates(),
        ascending(acc),
        forall|t: Seq<u8>| #[trigger] acc.contains(t) <==> is_solution(t, line, c) && t.last() < v,
        enumerates(batch, line.drop_last().push(set![v]), c),
        ascending(batch),
    ensures
        (acc + batch).no_duplicates(),
        ascending(acc + batch),
        forall|t: Seq<u8>| #[trigger]
            (acc + batch).contains(t) <==> is_solution(t, line, c) && t.last() < v + 1,
{
    let narrowed = line.drop_last().push(set![v]);
    let all = acc + batch;
    assert forall|j: int, k: int| 0 <= j < k < all.len() implies precedes(
        #[trigger] all[j],
        #[trigger] all[k],
    ) by {
        if k < acc.len() {
            assert(precedes(acc[j], acc[k]));
        } else if j >= acc.len() {
            assert(precedes(batch[j - acc.len()], batch[k - acc.len()]));
        } else {
            let a = acc[j];
            let b = batch[k - acc.len()];
            assert(acc.contains(a));
            assert(batch.contains(b));
            assert(is_solution(b, narrowed, c));
            lemma_fits_split(b, narrowed);
            let i = line.len() - 1;
            assert(0 <= i < a.len() && a[i] < b[i]);
        }
    }
    assert(narrowed.drop_last() =~= line.drop_last());
    assert forall|t: Seq<u8>|
        is_solution(t, narrowed, c) <==> is_solution(t, line, c) && t.last() == v by {
        if t.len() == line.len() {
            lemma_fits_split(t, line);
            lemma_fits_split(t, narrowed);
        }
    }
    assert forall|t: Seq<u8>| #[trigger]
        all.contains(t) <==> is_solution(t, line, c) && t.last() < v + 1 by {
        if all.contains(t) {
            let k = choose|k: int| 0 <= k < all.len() && all[k] == t;
            if k < acc.len() {
                assert(acc.contains(acc[k]));
            } else {
                assert(batch.contains(batch[k - acc.len()]));
            }
        }
        if is_solution(t, line, c) && t.last() < v + 1 {
            if t.last() < v {
                assert(acc.contains(t));
                let k = choose|k: int| 0 <= k < acc.len() && acc[k] == t;
                assert(all[k] == t);
            } else {
                assert(is_solution(t, narrowed, c));
                assert(batch.contains(t));
                let k = choose|k: int| 0 <= k < batch.len() && batch[k] == t;
                assert(all[acc.len() + k] == t);
            }
        }
    }
    assert forall|i: int, j: int| 0 <= i < all.len() && 0 <= j < all.len() && i != j implies all[i]
        != all[j] by {
        if i < acc.len() {
            assert(acc.contains(acc[i]));
        } else {
            assert(batch.contains(batch[i - acc.len()]));
        }
        if j < acc.len() {
            assert(acc.contains(acc[j]));
        } else {
            assert(batch.contains(batch[j - acc.len()]));
        }
    }
}

/// A value that the open last cell does not allow ends no solution.
proof fn lemma_open_end_skip(acc: Seq<Seq<u8>>, line: Seq<Set<u8>>, c: Constraint, v: u8)
    requires
        line.len() >= 2,
        !line.last().contains(v),
        forall|t: Seq<u8>| #[trigger] acc.contains(t) <==> is_solution(t, line, c) && t.last() < v,
    ensures
        forall|t: Seq<u8>| #[trigger]
            acc.contains(t) <==> is_solution(t, line, c) && t.last() < v + 1,
{
    assert forall|t: Seq<u8>| #[trigger]
        acc.contains(t) <==> is_solution(t, line, c) && t.last() < v + 1 by {
        if is_solution(t, line, c) {
            lemma_fits_split(t, line);
        }
    }
}

/// Every way to fill `section` that meets `constraint`, each once: a list of
/// lines of known cells, as long as `section`, cell by cell within its domain.
/// The list is ordered by the value at the last position, then by the one
/// before it, and so on.
pub fn solutions(section: Vec<GCell>, constraint: Constraint) -> (sols: Vec<Vec<GCell>>)
    ensures
        enumerates(tuples_of(sols@), domains(section@), constraint),
        ascending(tuples_of(sols@)),
        spelled_out(sols@),
        sols.len() == solution_set(domains(section@), constraint).len(),
    decreases section.len(), open_end(section@),
{
    let n = section.len();
    let sum = constraint.sum;
    let zeros = constraint.zeros;
    let ghost line = domains(section@);
    let mut res: Vec<Vec<GCell>> = Vec::new();
    if n == 0 {
        proof {
            assert(tuples_of(res@) =~= Seq::<Seq<u8>>::empty());
            lemma_enumeration_len(tuples_of(res@), line, constraint);
        }
        return res;
    }
    let cell = section[n - 1];
    if n == 1 {
        proof {
            lemma_single(line, constraint);
        }
        if cell.has(sum) && ((sum == 0 && zeros == 1) || (sum != 0 && zeros == 0)) {
            let mut only = cell;
            only.set(sum);
            let mut sol: Vec<GCell> = Vec::new();
            sol.push(only);
            res.push(sol);
            proof {
                assert(domains(sol@) =~= pinned(seq![sum]));
                lemma_tuple_of_pinned(sol@, seq![sum]);
                assert(tuples_of(res@) =~= seq![seq![sum]]);
                assert(is_solution(seq![sum], line, constraint));
                assert forall|t: Seq<u8>| #[trigger]
                    tuples_of(res@).contains(t) <==> is_solution(t, line, constraint) by {
                    if t == seq![sum] {
                        assert(tuples_of(res@)[0] == t);
                    }
                }
            }
        } else {
            assert(tuples_of(res@) =~= Seq::<Seq<u8>>::empty());
        }
        proof {
            lemma_enumeration_len(tuples_of(res@), line, constraint);
        }
        return res;
    }
    match cell.value() {
        Some(val) => {
            assert(line.last() == set![val]);
            if val > sum || (val == 0 && zeros == 0) {
                proof {
                    lemma_known_end_pruned(line, constraint, val);
                    assert(tuples_of(res@) =~= Seq::<Seq<u8>>::empty());
                    lemma_enumeration_len(tuples_of(res@), line, constraint);
                }
                return res;
            }
            let mut before = section;
            before.pop();
            let rest = Constraint::new(
                sum - val,
                if val == 0 {
                    zeros - 1
                } else {
                    zeros
                },
            );
            assert(domains(before@) =~= line.drop_last());
            let mut sols = solutions(before, rest);
            let ghost prev = sols@;
            let mut k: usize = 0;
            while k < sols.len()
                invariant
                    k <= sols.len(),
                    sols.len() == prev.len(),
                    forall|j: int| 0 <= j < k ==> (#[trigger] sols[j])@ == prev[j]@.push(cell),
                    forall|j: int| k <= j < sols.len() ==> (#[trigger] sols[j])@ == prev[j]@,
                decreases sols.len() - k,
            {
                sols[k].push(cell);
                k = k + 1;
            }
            proof {
                assert forall|j: int| 0 <= j < sols.len() implies #[trigger] tuples_of(sols@)[j]
                    == tuples_of(prev)[j].push(val) && domains(sols[j]@) == pinned(
                    tuple_of(sols[j]@),
                ) by {
                    let t0 = tuple_of(prev[j]@);
                    assert(domains(prev[j]@) == pinned(t0));
                    assert(sols[j]@ == prev[j]@.push(cell));
                    assert forall|i: int| 0 <= i < sols[j]@.len() implies domains(sols[j]@)[i]
                        == pinned(t0.push(val))[i] by {
                        if i < prev[j]@.len() {
                            assert(domains(prev[j]@)[i] == pinned(t0)[i]);
                        }
                    }
                    assert(domains(sols[j]@) =~= pinned(t0.push(val)));
                    lemma_tuple_of_pinned(sols[j]@, t0.push(val));
                }
                assert forall|j: int| 0 <= j < sols.len() implies domains((#[trigger] sols[j])@)
                    == pinned(tuple_of(sols[j]@)) by {
                    assert(tuples_of(sols@)[j] == tuples_of(prev)[j].push(val));
                }
                lemma_known_end(tuples_of(prev), tuples_of(sols@), line, constraint, rest, val);
                lemma_enumeration_len(tuples_of(sols@), line, constraint);
            }
            sols
        },
        None => {
            let mut v: u8 = 0;
            while v < 4
                invariant
                    v <= 4,
                    n >= 2,
                    n == section.len(),
                    line == domains(section@),
                    cell == section[n - 1],
                    cell@.len() != 1,
                    tuples_of(res@).no_duplicates(),
                    ascending(tuples_of(res@)),
                    forall|t: Seq<u8>| #[trigger]
                        tuples_of(res@).contains(t) <==> is_solution(t, line, constraint)
                            && t.last() < v,
                    spelled_out(res@),
                decreases 4 - v,
            {
                let ghost acc = tuples_of(res@);
                if cell.has(v) {
                    let mut only = cell;
                    only.set(v);
                    let mut narrowed = section.clone();
                    narrowed.pop();
                    narrowed.push(only);
                    assert(domains(narrowed@) =~= line.drop_last().push(set![v]));
                    assert(open_end(narrowed@) == 0);
                    let mut batch = solutions(narrowed, constraint);
                    let ghost found = tuples_of(batch@);
                    let ghost old_res = res@;
                    let ghost old_batch = batch@;
                    res.append(&mut batch);
                    proof {
                        assert(tuples_of(res@) =~= acc + found);
                        lemma_open_end(acc, found, line, constraint, v);
                        assert forall|k: int| 0 <= k < res.len() implies domains(
                            (#[trigger] res[k])@,
                        ) == pinned(tuple_of(res[k]@)) by {
                            if k < old_res.len() {
                                assert(res[k] == old_res[k]);
                            } else {
                                assert(res[k] == old_batch[k - old_res.len()]);
                            }
                        }
                    }
                } else {
                    proof {
                        lemma_open_end_skip(acc, line, constraint, v);
                    }
                }
                v = v + 1;
            }
            proof {
                assert forall|t: Seq<u8>| #[trigger]
                    tuples_of(res@).contains(t) <==> is_solution(t, line, constraint) by {
                    if is_solution(t, line, constraint) {
                        assert(line[n - 1].contains(t[n - 1]));
                        cell.lemma_range();
                    }
                }
                lemma_enumeration_len(tuples_of(res@), line, constraint);
            }
            res
        },
    }
}

/// Whether `v` is the value at position `i` of one of the first `k` tuples.
spec fn seen(ts: Seq<Seq<u8>>, k: int, i: int, v: u8) -> bool {
    exists|j: int| 0 <= j < k && #[trigger] ts[j][i] == v
}

proof fn lemma_seen_next(ts: Seq<Seq<u8>>, k: int, i: int, v: u8)
    requires
        0 <= k < ts.len(),
    ensures
        seen(ts, k + 1, i, v) <==> seen(ts, k, i, v) || ts[k][i] == v,
{
    if seen(ts, k, i, v) {
        let j = choose|j: int| 0 <= j < k && #[trigger] ts[j][i] == v;
        assert(0 <= j < k + 1 && ts[j][i] == v);
    }
    if ts[k][i] == v {
        assert(0 <= k < k + 1 && ts[k][i] == v);
    }
}

proof fn lemma_seen_all(ts: Seq<Seq<u8>>, line: Seq<Set<u8>>, c: Constraint, i: int, v: u8)
    requires
        enumerates(ts, line, c),
    ensures
        seen(ts, ts.len() as int, i, v) <==> admits(line, c, i, v),
{
    if seen(ts, ts.len() as int, i, v) {
        let j = choose|j: int| 0 <= j < ts.len() && #[trigger] ts[j][i] == v;
        assert(ts.contains(ts[j]));
        assert(is_solution(ts[j], line, c) && ts[j][i] == v);
    }
    if admits(line, c, i, v) {
        let t = choose|t: Seq<u8>| is_solution(t, line, c) && t[i] == v;
        assert(ts.contains(t));
        let j = choose|j: int| 0 <= j < ts.len() && ts[j] == t;
        assert(0 <= j < ts.len() && ts[j][i] == v);
    }
}

/// Position by position, the values that either of two lines allows.
pub fn combine(left: Vec<GCell>, right: Vec<GCell>) -> (both: Vec<GCell>)
    requires
        left.len() <= right.len(),
    ensures
        both.len() == left.len(),
        forall|i: int| 0 <= i < left.len() ==> (#[trigger] both[i])@ == left[i]@.union(right[i]@),
{
    let mut res: Vec<GCell> = Vec::new();
    let mut i: usize = 0;
    while i < left.len()
        invariant
            i <= left.len(),
            left.len() <= right.len(),
            res.len() == i,
            forall|j: int| 0 <= j < i ==> (#[trigger] res[j])@ == left[j]@.union(right[j]@),
        decreases left.len() - i,
    {
        res.push(left[i].union(&right[i]));
        i = i + 1;
    }
    res
}

/// A line of the grid: the cells of a row or of a column, and the constraint
/// that the line is under.
#[derive(Debug, Clone)]
pub struct Section {
    pub section: Vec<GCell>,
    pub constraint: Constraint,
}

impl Section {
    pub fn new(section: Vec<GCell>, constraint: Constraint) -> (line: Self)
        ensures
            line.section == section,
            line.constraint == constraint,
    {
        Section { section, constraint }
    }

    /// Narrows each cell to the values that some solution of the line gives
    /// it. A value is kept exactly if a solution has it at that position; a
    /// line without a solution ends with every cell empty.
    pub fn simplify(&self) -> (narrowed: Self)
        ensures
            narrowed.constraint == self.constraint,
            domains(narrowed.section@) == reduced(domains(self.section@), self.constraint),
    {
        let n = self.section.len();
        let ghost line = domains(self.section@);
        let mut res: Vec<GCell> = Vec::new();
        while res.len() < n
            invariant
                res.len() <= n,
                forall|i: int| 0 <= i < res.len() ==> (#[trigger] res[i])@ == Set::<u8>::empty(),
            decreases n - res.len(),
        {
            res.push(GCell::empty());
        }
        let sols = solutions(self.section.clone(), self.constraint);
        let ghost ts = tuples_of(sols@);
        let mut k: usize = 0;
        while k < sols.len()
            invariant
                k <= sols.len(),
                res.len() == n,
                n == line.len(),
                ts == tuples_of(sols@),
                enumerates(ts, line, self.constraint),
                spelled_out(sols@),
                forall|i: int, v: u8|
                    0 <= i < n ==> ((#[trigger] res[i]@.contains(v)) <==> seen(ts, k as int, i, v)),
            decreases sols.len() - k,
        {
            let ghost old_res = res@;
            proof {
                assert(ts.contains(ts[k as int]));
                assert(is_solution(ts[k as int], line, self.constraint));
                assert(domains(sols[k as int]@) == pinned(ts[k as int]));
                assert(domains(sols[k as int]@).len() == sols[k as int]@.len());
            }
            res = combine(res, sols[k].clone());
            proof {
                assert forall|i: int, v: u8| 0 <= i < n implies ((#[trigger] res[i]@.contains(v))
                    <==> seen(ts, k + 1, i, v)) by {
                    lemma_seen_next(ts, k as int, i, v);
                    assert(old_res[i]@.contains(v) <==> seen(ts, k as int, i, v));
                    assert(domains(sols[k as int]@)[i] == pinned(ts[k as int])[i]);
                    assert(res[i]@ == old_res[i]@.union(sols[k as int]@[i]@));
                }
            }
            k = k + 1;
        }
        proof {
            assert forall|i: int| 0 <= i < n implies domains(res@)[i] == reduced(
                line,
                self.constraint,
            )[i] by {
                assert forall|v: u8|
                    res[i]@.contains(v) <==> admits(line, self.constraint, i, v) by {
                    lemma_seen_all(ts, line, self.constraint, i, v);
                }
                assert(res[i]@ =~= Set::new(|v: u8| admits(line, self.constraint, i, v)));
            }
            assert(domains(res@) =~= reduced(line, self.constraint));
        }
        Section { section: res, constraint: self.constraint }
    }
}

} // verus!
