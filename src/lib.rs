//! A nonogram hint dispenser: line-local deduction passes over a puzzle grid,
//! and a scheduler that runs them to a fixpoint.

pub mod bitset;
pub mod clue;
pub mod continuous_range;
pub mod crowded_clue;
pub mod discrete_range;
pub mod hint;
pub mod line;
pub mod parser;
pub mod puzzle;
pub mod solver;
pub mod text;
