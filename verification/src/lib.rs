//! A sliding-pawn puzzle engine and bounded breadth-first solver.
//!
//! Pawns occupy cells of a rectangular grid and, when pushed in a cardinal
//! direction, slide until a wall, the grid edge, or another pawn stops them.
//! The puzzle is solved when a Fox stands on every goal tile. The solver
//! expands all branches one generation at a time, deduplicates against every
//! pawn placement ever seen, and reports the first — hence shortest —
//! winning push sequence within its generation budget.

pub mod board;
pub mod solver;
