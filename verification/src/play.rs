//! One turn of the game: what the player is shown, and what the player's reply
//! does.

use vstd::prelude::*;
use crate::game::{lists_safe, Game};
use crate::input::{asks_to_quit, parse_input, parsed_move, quit_input};
use crate::odds::odds_weight;
use crate::puzzle::Puzzle;

verus! {

/// What the player is shown before a move.
#[derive(Debug, Clone, PartialEq, Eq)]
pub enum Advice {
    /// The puzzle is won.
    Completed,
    /// The cells that can be turned over without risk.
    Safe(Vec<(usize, usize)>),
    /// No cell is free of risk: the open cells, each with the weights of its
    /// four values.
    Choices(Vec<(usize, usize, [u128; 4])>),
}

/// What a reply of the player does.
#[derive(Debug, Clone, PartialEq, Eq)]
pub enum Turn {
    /// The player ends the game.
    Exit,
    /// The player made a move: the game after it.
    Moved(Game),
    /// The reply is neither a move nor the end of the game.
    Invalid,
}

/// Whether `odds` has an entry for the cell at (`row`, `col`).
pub open spec fn lists_cell(odds: Seq<(usize, usize, [u128; 4])>, row: usize, col: usize) -> bool {
    exists|i: int| 0 <= i < odds.len() && (#[trigger] odds[i]).0 == row && odds[i].1 == col
}

/// Whether `odds` lists the open cells of `p`, all of them, row by row, each
/// as (row, column, weights of the four values).
pub open spec fn lists_choices(p: Puzzle, odds: Seq<(usize, usize, [u128; 4])>) -> bool {
    &&& forall|i: int|
        0 <= i < odds.len() ==> (#[trigger] odds[i]).0 < 5 && odds[i].1 < 5 && p.cells[5
            * odds[i].0 + odds[i].1].len() != 1
    &&& forall|i: int, v: u8|
        0 <= i < odds.len() && v <= 3 ==> #[trigger] odds[i].2[v as int] == odds_weight(
            p,
            odds[i].0 as int,
            odds[i].1 as int,
            v,
        )
    &&& forall|i: int, j: int|
        0 <= i < j < odds.len() ==> 5 * odds[i].0 + odds[i].1 < 5 * odds[j].0 + odds[j].1
    &&& forall|r: usize, c: usize|
        r < 5 && c < 5 && p.cells[5 * r + c].len() != 1 ==> #[trigger] lists_cell(odds, r, c)
}

/// The puzzle after the move `mv`, given as (row, column, value): the guess
/// is made, and deduction follows to the end.
pub open spec fn after_move(p: Puzzle, mv: (usize, usize, u8)) -> Puzzle {
    p.guess(mv.0 as int, mv.1 as int, mv.2).fixpoint()
}

impl Game {
    /// What to show the player: that the puzzle is won; or else the cells
    /// that are safe, where there are any; or else the open cells with the
    /// weights of their values.
    pub fn advise(&self) -> (advice: Advice)
        requires
            self@.wf(),
        ensures
            match advice {
                Advice::Completed => self@.complete(),
                Advice::Safe(cells) => !self@.complete() && cells.len() > 0 && lists_safe(
                    self@,
                    cells@,
                ),
                Advice::Choices(odds) => !self@.complete() && lists_safe(
                    self@,
                    Seq::<(usize, usize)>::empty(),
                ) && lists_choices(self@, odds@),
            },
    {
        if self.grid().complete() {
            return Advice::Completed;
        }
        let safe = self.safe();
        if safe.len() > 0 {
            return Advice::Safe(safe);
        }
        assert(safe@ =~= Seq::<(usize, usize)>::empty());
        let all = self.approximate_odds();
        let mut odds: Vec<(usize, usize, [u128; 4])> = Vec::new();
        let mut k: usize = 0;
        while k < 25
            invariant
                k <= 25,
                self@.wf(),
                all.len() == 25,
                forall|i: int|
                    0 <= i < 25 ==> (#[trigger] all[i]).0 == i / 5 && all[i].1 == i % 5,
                forall|i: int, v: u8|
                    0 <= i < 25 && v <= 3 ==> #[trigger] all[i].2[v as int] == odds_weight(
                        self@,
                        i / 5,
                        i % 5,
                        v,
                    ),
                forall|i: int|
                    0 <= i < odds.len() ==> (#[trigger] odds[i]).0 < 5 && odds[i].1 < 5 && 5
                        * odds[i].0 + odds[i].1 < k && self@.cells[5 * odds[i].0
                        + odds[i].1].len() != 1,
                forall|i: int, v: u8|
                    0 <= i < odds.len() && v <= 3 ==> #[trigger] odds[i].2[v as int]
                        == odds_weight(self@, odds[i].0 as int, odds[i].1 as int, v),
                forall|i: int, j: int|
                    0 <= i < j < odds.len() ==> 5 * odds[i].0 + odds[i].1 < 5 * odds[j].0
                        + odds[j].1,
                forall|r: usize, c: usize|
                    r < 5 && c < 5 && 5 * r + c < k && self@.cells[5 * r + c].len() != 1
                        ==> #[trigger] lists_cell(odds@, r, c),
            decreases 25 - k,
        {
            let item = all[k];
            let ghost before = odds@;
            if !self.grid().cell(item.0, item.1).is_known() {
                odds.push(item);
                assert(odds@[before.len() as int] == item);
                assert forall|v: u8| v <= 3 implies #[trigger] item.2[v as int] == odds_weight(
                    self@,
                    item.0 as int,
                    item.1 as int,
                    v,
                ) by {
                    assert(all[k as int].2[v as int] == odds_weight(
                        self@,
                        (k as int) / 5,
                        (k as int) % 5,
                        v,
                    ));
                }
            }
            assert forall|r: usize, c: usize|
                r < 5 && c < 5 && 5 * r + c < k + 1 && self@.cells[5 * r + c].len()
                    != 1 implies #[trigger] lists_cell(odds@, r, c) by {
                if 5 * r + c < k {
                    assert(lists_cell(before, r, c));
                    let i = choose|i: int|
                        0 <= i < before.len() && (#[trigger] before[i]).0 == r && before[i].1 == c;
                    assert(odds@[i] == before[i]);
                } else {
                    assert(r == item.0 && c == item.1);
                    assert(odds@[before.len() as int].0 == r);
                }
            }
            k = k + 1;
        }
        Advice::Choices(odds)
    }

    /// What the reply `input` does: `q` or `quit` ends the game; a move,
    /// written as `row, col, value`, is made and followed by deduction to the
    /// end; anything else is refused.
    pub fn play(&self, input: &str) -> (turn: Turn)
        requires
            self@.wf(),
        ensures
            match turn {
                Turn::Exit => asks_to_quit(input@),
                Turn::Moved(next) => !asks_to_quit(input@) && parsed_move(input@) is Some
                    && next@.wf() && next@ == after_move(self@, parsed_move(input@)->0),
                Turn::Invalid => !asks_to_quit(input@) && parsed_move(input@) is None,
            },
    {
        if quit_input(input) {
            return Turn::Exit;
        }
        match parse_input(input) {
            Some((row, col, val)) => {
                let board = self.set(row, col, val);
                Turn::Moved(board.simplify_complete())
            },
            None => Turn::Invalid,
        }
    }
}

} // verus!
