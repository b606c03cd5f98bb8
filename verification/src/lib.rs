//! A verified solver core for Klotski-style sliding-block puzzles.
//!
//! A rectangular grid holds rigid rectangular blocks (1x1, 1x2, 2x1 or 2x2)
//! and a set of empty cells; blocks slide one cell at a time into adjacent
//! empty space.  The library models the board, enumerates and applies legal
//! moves, evaluates the goal test and an admissible heuristic, and searches
//! for solutions with iterative-deepening depth-first search, proved to
//! return minimum-length solutions, and with iterative-deepening A*.

mod board;
mod codec;
mod construct;
mod count;
mod eq;
mod generate;
mod heuristic;
mod laws;
mod matrix;
mod moves;
mod search;
mod vec2;

pub use board::{Block, Board, BoardError, BoardState, Dir, Move, MoveError};
pub use codec::{parse_cmd, vec2_from_str};
pub use search::{execute, idastar, iddfs, Algorithm};
pub use matrix::GridError;
pub use matrix::Matrix2D;
pub use vec2::Vec2;
