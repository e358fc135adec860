//! Deduction for a 5x5 grid puzzle whose cells hold 0, 1, 2 or 3 and whose rows
//! and columns each state the sum of their values and the number of zeros.

pub mod cell;
pub mod constraint;
pub mod game;
pub mod grid;
pub mod input;
pub mod lines;
pub mod odds;
pub mod play;
pub mod puzzle;
pub mod random;
pub mod render;
pub mod solver;

pub use cell::GCell;
pub use constraint::{constraints_from_board, Constraint};
pub use game::Game;
pub use grid::Grid;
pub use input::{parse_input, parse_list, quit_input, BadNumber};
pub use odds::combine_stats;
pub use play::{Advice, Turn};
pub use random::{random_board, random_game};
pub use solver::{combine, solutions, Section};
