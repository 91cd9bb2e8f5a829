//! A batch Sudoku solver based on pure constraint propagation.
//!
//! A puzzle is a 9x9 grid of cells; each cell keeps a set of candidate
//! digits.  Elimination rules (peer exclusion, hidden singles, naked
//! subsets) remove candidates until the grid either reaches a unique
//! filled state or stops making progress.  Every rule and the
//! propagation loop itself are verified: each pass is proved equal to a
//! functional model of the pass, candidates are proved to only ever be
//! removed, the loop is proved to terminate, and the rules are proved
//! sound — they never eliminate a digit of a valid solution the grid
//! still admits.

pub mod cell;
pub mod groups;
pub mod grid;
pub mod rules;
pub mod solver;
pub mod laws;
pub mod soundness;
