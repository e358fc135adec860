//! Boards of known values drawn at random, and the puzzles that they pose.

use vstd::prelude::*;
use rand::rngs::ThreadRng;
use rand::seq::SliceRandom;
use crate::constraint::{board_constraints, board_sums_fit, constraints_from_board};
use crate::game::Game;
use crate::lines::{col_of, lemma_line_small, row_of};
use crate::puzzle::Puzzle;

verus! {

/// `rand::rngs::ThreadRng`, the generator that each thread keeps for itself.
/// Nothing is known of what is inside it.
#[verifier::external_type_specification]
#[verifier::external_body]
pub struct ExThreadRng(rand::rngs::ThreadRng);

/// `rand::thread_rng` hands out the calling thread's generator. Nothing is
/// claimed of it. It fails only where the system has no randomness to seed it
/// with.
pub assume_specification[ rand::thread_rng ]() -> (rng: rand::rngs::ThreadRng);

/// `SliceRandom::choose` on the slice of `choices`. Taken from its source: an
/// empty slice gives `None`; any other gives one of its elements, at an index
/// that the generator picks. Which one is not said.
#[verifier::external_body]
fn pick(choices: &Vec<u8>, rng: &mut ThreadRng) -> (picked: Option<u8>)
    ensures
        choices@.len() == 0 ==> picked is None,
        choices@.len() > 0 ==> picked is Some && choices@.contains(picked->0),
{
    choices.choose(rng).copied()
}

/// Whether `board` is a full board: 25 values, each from 0 to 3.
pub open spec fn full_board(board: Seq<u8>) -> bool {
    &&& board.len() == 25
    &&& forall|k: int| 0 <= k < 25 ==> #[trigger] board[k] <= 3
}

/// No row or column of a full board sums to more than 15.
pub proof fn lemma_full_board_fits(board: Seq<u8>)
    requires
        full_board(board),
    ensures
        board_sums_fit(board),
{
    assert forall|k: int| 0 <= k < 5 implies crate::lines::line_sum(#[trigger] row_of(board, k))
        <= u8::MAX by {
        assert forall|i: int| 0 <= i < 5 implies #[trigger] row_of(board, k)[i] <= 3 by {
            assert(board[5 * k + i] <= 3);
        }
        lemma_line_small(row_of(board, k));
    }
    assert forall|k: int| 0 <= k < 5 implies crate::lines::line_sum(#[trigger] col_of(board, k))
        <= u8::MAX by {
        assert forall|i: int| 0 <= i < 5 implies #[trigger] col_of(board, k)[i] <= 3 by {
            assert(board[k + 5 * i] <= 3);
        }
        lemma_line_small(col_of(board, k));
    }
}

/// A board of 25 values, row by row, each drawn at random from 0, 1, 2, 3.
pub fn random_board() -> (board: Vec<u8>)
    ensures
        full_board(board@),
{
    let mut choices: Vec<u8> = Vec::new();
    choices.push(0);
    choices.push(1);
    choices.push(2);
    choices.push(3);
    let mut rng = rand::thread_rng();
    let mut board: Vec<u8> = Vec::new();
    while board.len() < 25
        invariant
            board.len() <= 25,
            choices@ == seq![0u8, 1u8, 2u8, 3u8],
            forall|k: int| 0 <= k < board.len() ==> #[trigger] board[k] <= 3,
        decreases 25 - board.len(),
    {
        let val = pick(&choices, &mut rng).unwrap();
        proof {
            let i = choose|i: int| 0 <= i < choices@.len() && choices@[i] == val;
            assert(choices@[i] <= 3);
        }
        board.push(val);
    }
    board
}

/// A fresh game that has an answer: its constraints are those of a full board
/// drawn at random.
pub fn random_game() -> (game: Game)
    ensures
        game@.wf(),
        game@ == Puzzle::fresh(game@.constraints),
        exists|board: Seq<u8>| full_board(board) && #[trigger] board_constraints(
            board,
            game@.constraints,
        ),
{
    let board = random_board();
    let ghost drawn = board@;
    proof {
        lemma_full_board_fits(drawn);
    }
    let constraints = constraints_from_board(board);
    assert(full_board(drawn) && board_constraints(drawn, constraints@));
    Game::new(constraints)
}

} // verus!
