//! A minimal bitboard chess engine core: board state as twelve 64-bit
//! occupancy masks, pseudo-legal move generation for all six piece kinds
//! (including promotion, double push and castling), in-place move
//! application, check detection, legal-move filtering, and a fixed-depth
//! minimax search over a material evaluation.

pub mod board;
pub mod evaluate;
pub mod generate_moves;
pub mod move_piece;
pub mod search;
