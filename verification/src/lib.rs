//! A sliding-block escape puzzle: a distinguished "prisoner" piece must reach
//! a board edge by shunting other pieces out of its path.  The crate models
//! board states and movement legality, proves solvability of instances with a
//! breadth-first solver that reconstructs a solution path, and generates
//! random solvable instances by rejection sampling.

use vstd::prelude::*;

pub mod decode;
pub mod game;
pub mod generate;
pub mod solver;

use crate::game::Piece;

verus! {

/// The record a caller serializes for external consumption: the generated
/// board, the solution path's boards, and the parameters that describe the
/// instance.
pub struct GameData {
    pub game: Vec<Vec<i8>>,
    pub steps: Vec<Vec<Vec<i8>>>,
    pub difficulty: i8,
    pub disabled_pieces: Vec<usize>,
    pub reversed_pieces: Vec<usize>,
    pub prisoner: Piece,
    pub width: i8,
    pub height: i8,
}

} // verus!
