//! Canonical minimal-string ("minlex") form of 9x9 Sudoku givens grids.
//!
//! Two grids that differ only by one of the enumerated board symmetries
//! (the eight square symmetries, the six symmetric row/column slot
//! orderings, and the optional middle-line transposition) or by a
//! relabeling of the given digits map to the same canonical string.

pub mod grid;
pub mod transform;
pub mod renumber;
pub mod canon;
pub mod solving;
pub mod laws;

pub use canon::minlex;
pub use canon::MinlexError;
pub use solving::parse_givens;
pub use solving::render_solution;
