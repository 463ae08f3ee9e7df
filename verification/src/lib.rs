//! A constraint-propagation Sudoku solver.
//!
//! A puzzle is a 9x9 grid of cells; each cell holds a set of candidate
//! digits, represented as a bitmask ([`candidates::Candidates`]).  The
//! board ([`board::Board`]) is parsed from text, and the solver
//! ([`ripple::Ripple`]) narrows candidate sets by propagating solved
//! digits to their peers, by a within-triple elimination pass, and by
//! backtracking search.

pub mod board;
pub mod candidates;
pub mod ripple;
