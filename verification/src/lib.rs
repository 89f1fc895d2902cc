//! Heads-up no-limit hold'em spot model: cards, weighted ranges, boards,
//! bet-size options, the betting tree and the bookkeeping a solver needs.

pub mod bet_size;
pub mod board;
pub mod card;
pub mod config;
pub mod game;
pub mod hands;
pub mod isomorphism;
pub mod layout;
pub mod payoff;
pub mod range;
pub mod range_text;
pub mod regret;
pub mod sizing;
pub mod solver;
pub mod spot;
pub mod tree;
pub mod weights;
