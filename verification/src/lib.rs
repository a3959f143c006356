//! A verified core for a two-player connection game on a 7x6 grid:
//! a bit-packed board with constant-time win detection, and a
//! Monte Carlo tree search engine that fans independent worker trees
//! out across threads and merges their root statistics.

pub mod bitboard;
pub mod board;
pub mod mcts;
pub mod player;
pub mod bot;
