//! Rule engine of a 3x3 sliding-tile puzzle: the grid, legal moves,
//! solvable shuffles and the win condition.

pub mod inversions;
pub mod grid;
pub mod puzzle;
