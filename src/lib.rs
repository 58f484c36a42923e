//! Connect Four: board encoding, move generation, win detection and a
//! depth-limited minimax search, with contracts proved by Verus.

pub mod board;
pub mod state;
pub mod search;
pub mod strategy;
