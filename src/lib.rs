use vstd::prelude::*;

pub mod board;
pub mod grid;
pub mod piece;
pub mod rotations;
pub mod search;
pub mod text;

pub use board::{Board, calculate_penalty, place_piece};
pub use grid::{MAX_DIM, Position};
pub use piece::Piece;
pub use rotations::pieces_with_rotations;
pub use search::{Choice, SolutionState, advance_solution_vector_or_test_solution, render, solve};
pub use text::ParseError;

verus! {

} // verus!
