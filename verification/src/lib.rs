//! Tic-tac-toe played to perfection: the rules of the board, an oracle that
//! tells whether a decisive result is still reachable, and an exhaustive
//! minimax search with alpha-beta pruning that picks the next move.
//!
//! - [`board`]: the nine cells, whose turn it is, who has won, placing a mark.
//! - [`moves`]: the legal moves of a position, in an order left to chance.
//! - [`oracle`]: whether a game can still be won by anybody.
//! - [`score`]: the exact fractions by which the search values positions.
//! - [`search`]: the search itself, and what its best move is worth.
//! - [`play`]: what best play achieves, and that best moves keep a draw.
//! - [`symmetry`]: turning and reflecting the board changes no result.
//! - [`draw`]: the game is a draw from the empty board.

pub mod board;
pub mod draw;
pub mod moves;
pub mod oracle;
pub mod play;
pub mod score;
pub mod search;
pub mod symmetry;
