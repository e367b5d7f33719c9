//! A verified Connect-Four engine: a bit-packed board with win detection,
//! a legal-move generator, an arena-based game tree, and Monte-Carlo tree
//! search (selection by UCT, expansion, random rollout, backpropagation)
//! with tree reuse across real moves.

pub mod board;
mod clock;
pub mod search;
pub mod tree;
