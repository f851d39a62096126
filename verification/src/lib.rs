//! The game of Amazons. Two sides move their pieces like chess queens over
//! a square board; after each move the piece shoots an arrow, again like a
//! queen, and the cell the arrow lands on is obstructed for good. The side
//! that cannot move loses.
//!
//! The crate holds the board and its moves, a territory heuristic, a search
//! of bounded depth and width, and the bookkeeping of a game. Every function
//! has a contract, and the verifier proves that the code meets it. The
//! contracts speak of a board through its view, [`board::BoardView`].
//!
//! Two collections come from other crates, the bit vector under the board
//! and the short list of the search; [`bitgrid`] and [`shortlist`] say what
//! is taken on trust about them.

pub mod bitgrid;
pub mod board;
pub mod distance;
pub mod evaluate;
pub mod geometry;
pub mod legal;
pub mod lines;
pub mod movegen;
pub mod notation;
pub mod range;
pub mod search;
pub mod session;
pub mod shortlist;
pub mod text;
