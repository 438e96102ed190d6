//! Exhaustive solver for a single-piece solitaire puzzle on an 8x8 board:
//! a queen-like mover slides along ranks, files and diagonals, each move
//! capturing the nearest pawn in one of the eight directions, until every
//! pawn has been taken.  The library enumerates every complete capture
//! sequence from a starting layout and tallies the branching statistics of
//! the search tree.

pub mod bits;
pub mod board;
pub mod search;

pub use bits::{in_range, mask, pawn_count, sq, sq_occupied};
pub use board::Board;
pub use search::{recurse, solve, Results};
