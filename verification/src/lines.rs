//! Lines of concrete values: their sum, their number of zeros, and where the
//! rows and columns lie in a grid stored row by row.

use vstd::prelude::*;

verus! {

/// The sum of the values of a line.
pub open spec fn line_sum(t: Seq<u8>) -> int
    decreases t.len(),
{
    if t.len() == 0 {
        0
    } else {
        line_sum(t.drop_last()) + t.last()
    }
}

/// The number of zeros in a line.
pub open spec fn line_zeros(t: Seq<u8>) -> int
    decreases t.len(),
{
    if t.len() == 0 {
        0
    } else {
        line_zeros(t.drop_last()) + if t.last() == 0 {
            1int
        } else {
            0int
        }
    }
}

/// Row `r` of a grid of five columns stored row by row.
pub open spec fn row_of<T>(cells: Seq<T>, r: int) -> Seq<T> {
    Seq::new(5, |i: int| cells[5 * r + i])
}

/// Column `c` of a grid of five columns stored row by row.
pub open spec fn col_of<T>(cells: Seq<T>, c: int) -> Seq<T> {
    Seq::new(5, |i: int| cells[c + 5 * i])
}

/// Sum and zero count of a line are never negative, and a line has no more
/// zeros than values.
pub proof fn lemma_line_bounds(t: Seq<u8>)
    ensures
        0 <= line_sum(t) <= 255 * t.len(),
        0 <= line_zeros(t) <= t.len(),
    decreases t.len(),
{
    if t.len() > 0 {
        lemma_line_bounds(t.drop_last());
    }
}

/// A line of values from 0 to 3 sums to at most three times its length.
pub proof fn lemma_line_small(t: Seq<u8>)
    requires
        forall|i: int| 0 <= i < t.len() ==> #[trigger] t[i] <= 3,
    ensures
        line_sum(t) <= 3 * t.len(),
    decreases t.len(),
{
    if t.len() > 0 {
        assert(t[t.len() - 1] <= 3);
        assert forall|i: int| 0 <= i < t.drop_last().len() implies #[trigger] t.drop_last()[i]
            <= 3 by {
            assert(t[i] <= 3);
        }
        lemma_line_small(t.drop_last());
    }
}

/// Appending a value adds it to the sum, and adds one to the zero count where
/// the value is zero.
pub proof fn lemma_line_push(t: Seq<u8>, v: u8)
    ensures
        line_sum(t.push(v)) == line_sum(t) + v,
        line_zeros(t.push(v)) == line_zeros(t) + if v == 0 {
            1int
        } else {
            0int
        },
{
    assert(t.push(v).drop_last() =~= t);
}

/// A prefix of a line has no greater sum and no more zeros than the line.
pub proof fn lemma_line_prefix(t: Seq<u8>, n: int)
    requires
        0 <= n <= t.len(),
    ensures
        0 <= line_sum(t.take(n)) <= line_sum(t),
        0 <= line_zeros(t.take(n)) <= line_zeros(t),
    decreases t.len(),
{
    if n == t.len() {
        assert(t.take(n) =~= t);
        lemma_line_bounds(t);
    } else {
        lemma_line_prefix(t.drop_last(), n);
        assert(t.drop_last().take(n) =~= t.take(n));
    }
}

} // verus!
