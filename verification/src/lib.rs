//! Solver for a fixed 5x4 sliding-block puzzle.
//!
//! A board holds blocks of four footprints (2x2, vertical and horizontal
//! 2-cell pieces, and single cells) on a 20-cell grid, bit-packed into one
//! `u32` anchor mask per block kind.  `board` provides the state encoding
//! and legal-move generation; `search` finds a shortest solution path by
//! breadth-first search.
pub mod board;
pub mod search;
