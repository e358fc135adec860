//! What a row or a column states of itself: the sum of its five values and how
//! many of them are zero.

use vstd::prelude::*;
use crate::lines::{col_of, lemma_line_bounds, lemma_line_prefix, lemma_line_push, line_sum, line_zeros, row_of};

verus! {

/// The sum and the number of zeros that a line's values must have.
#[derive(Clone, Copy, Debug, PartialEq, Eq, Structural)]
pub struct Constraint {
    pub sum: u8,
    pub zeros: u8,
}

/// The constraints that the flat list `arr` spells out, two numbers each: the
/// sum, then the zero count.
pub open spec fn paired(arr: Seq<u8>) -> Seq<Constraint> {
    Seq::new(arr.len() / 2, |i: int| Constraint { sum: arr[2 * i], zeros: arr[2 * i + 1] })
}

/// Whether every row and every column of a board of 25 values has a sum that a
/// constraint can hold.
pub open spec fn board_sums_fit(board: Seq<u8>) -> bool {
    &&& forall|k: int| 0 <= k < 5 ==> line_sum(#[trigger] row_of(board, k)) <= u8::MAX
    &&& forall|k: int| 0 <= k < 5 ==> line_sum(#[trigger] col_of(board, k)) <= u8::MAX
}

/// The ten constraints that a board of known values meets: those of its five
/// rows, then those of its five columns.
pub open spec fn board_constraints(board: Seq<u8>, cons: Seq<Constraint>) -> bool {
    &&& cons.len() == 10
    &&& forall|k: int| 0 <= k < 5 ==> (#[trigger] cons[k]).met_by(row_of(board, k))
    &&& forall|k: int| 0 <= k < 5 ==> (#[trigger] cons[5 + k]).met_by(col_of(board, k))
}

impl Constraint {
    /// Whether the values `t` have this sum and this many zeros.
    pub open spec fn met_by(self, t: Seq<u8>) -> bool {
        line_sum(t) == self.sum && line_zeros(t) == self.zeros
    }

    pub fn new(sum: u8, zeros: u8) -> (c: Self)
        ensures
            c.sum == sum,
            c.zeros == zeros,
    {
        Constraint { sum, zeros }
    }

    /// Reads the ten constraints of a puzzle from a flat list of twenty
    /// numbers; a list of any other length is refused.
    pub fn from_list(arr: Vec<u8>) -> (cons: Option<Vec<Self>>)
        ensures
            arr.len() != 20 ==> cons is None,
            arr.len() == 20 ==> cons is Some && cons->0@ == paired(arr@),
    {
        if arr.len() == 20 {
            let mut res: Vec<Constraint> = Vec::new();
            let mut i: usize = 0;
            while i < 10
                invariant
                    i <= 10,
                    arr.len() == 20,
                    res.len() == i,
                    forall|k: int|
                        0 <= k < i ==> res[k] == (Constraint {
                            sum: arr[2 * k],
                            zeros: arr[2 * k + 1],
                        }),
                decreases 10 - i,
            {
                res.push(Constraint::new(arr[2 * i], arr[2 * i + 1]));
                i = i + 1;
            }
            assert(res@ =~= paired(arr@));
            Some(res)
        } else {
            None
        }
    }

    /// The constraint that a line of known values meets.
    pub fn from_vec(arr: Vec<u8>) -> (c: Self)
        requires
            line_sum(arr@) <= u8::MAX,
            line_zeros(arr@) <= u8::MAX,
        ensures
            c.sum == line_sum(arr@),
            c.zeros == line_zeros(arr@),
    {
        let mut sum: u8 = 0;
        let mut zeros: u8 = 0;
        let mut i: usize = 0;
        while i < arr.len()
            invariant
                i <= arr.len(),
                sum == line_sum(arr@.take(i as int)),
                zeros == line_zeros(arr@.take(i as int)),
                line_sum(arr@) <= u8::MAX,
                line_zeros(arr@) <= u8::MAX,
            decreases arr.len() - i,
        {
            proof {
                lemma_line_prefix(arr@, i + 1);
                lemma_line_push(arr@.take(i as int), arr@[i as int]);
                assert(arr@.take(i as int).push(arr@[i as int]) =~= arr@.take(i + 1));
            }
            if arr[i] == 0 {
                zeros = zeros + 1;
            }
            sum = sum + arr[i];
            i = i + 1;
        }
        assert(arr@.take(arr.len() as int) =~= arr@);
        Constraint { sum, zeros }
    }
}

fn board_row(board: &Vec<u8>, r: usize) -> (line: Vec<u8>)
    requires
        board.len() >= 25,
        r < 5,
    ensures
        line@ == row_of(board@, r as int),
{
    let mut line: Vec<u8> = Vec::new();
    let mut i: usize = 0;
    while i < 5
        invariant
            i <= 5,
            r < 5,
            board.len() >= 25,
            line.len() == i,
            forall|j: int| 0 <= j < i ==> line[j] == board[5 * r + j],
        decreases 5 - i,
    {
        line.push(board[5 * r + i]);
        i = i + 1;
    }
    assert(line@ =~= row_of(board@, r as int));
    line
}

fn board_col(board: &Vec<u8>, c: usize) -> (line: Vec<u8>)
    requires
        board.len() >= 25,
        c < 5,
    ensures
        line@ == col_of(board@, c as int),
{
    let mut line: Vec<u8> = Vec::new();
    let mut i: usize = 0;
    while i < 5
        invariant
            i <= 5,
            c < 5,
            board.len() >= 25,
            line.len() == i,
            forall|j: int| 0 <= j < i ==> line[j] == board[c + 5 * j],
        decreases 5 - i,
    {
        line.push(board[c + 5 * i]);
        i = i + 1;
    }
    assert(line@ =~= col_of(board@, c as int));
    line
}

/// The constraints of a board whose 25 values are known, row by row: first those
/// of the rows, then those of the columns.
pub fn constraints_from_board(board: Vec<u8>) -> (cons: Vec<Constraint>)
    requires
        board.len() >= 25,
        board_sums_fit(board@),
    ensures
        board_constraints(board@, cons@),
{
    let mut cons: Vec<Constraint> = Vec::new();
    let mut r: usize = 0;
    while r < 5
        invariant
            r <= 5,
            board.len() >= 25,
            board_sums_fit(board@),
            cons.len() == r,
            forall|k: int| 0 <= k < r ==> (#[trigger] cons[k]).met_by(row_of(board@, k)),
        decreases 5 - r,
    {
        let line = board_row(&board, r);
        proof {
            lemma_line_bounds(line@);
            assert(line_sum(row_of(board@, r as int)) <= u8::MAX);
        }
        cons.push(Constraint::from_vec(line));
        r = r + 1;
    }
    let mut c: usize = 0;
    while c < 5
        invariant
            c <= 5,
            board.len() >= 25,
            board_sums_fit(board@),
            cons.len() == 5 + c,
            forall|k: int| 0 <= k < 5 ==> (#[trigger] cons[k]).met_by(row_of(board@, k)),
            forall|k: int| 0 <= k < c ==> (#[trigger] cons[5 + k]).met_by(col_of(board@, k)),
        decreases 5 - c,
    {
        let line = board_col(&board, c);
        proof {
            lemma_line_bounds(line@);
            assert(line_sum(col_of(board@, c as int)) <= u8::MAX);
        }
        cons.push(Constraint::from_vec(line));
        c = c + 1;
    }
    cons
}

} // verus!
