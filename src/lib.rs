use vstd::prelude::*;

pub mod board;
pub mod coord;
pub mod model;
pub mod warnsdorff;

pub use board::{Board, Mutation};
pub use coord::Coord;

verus! {

} // verus!
