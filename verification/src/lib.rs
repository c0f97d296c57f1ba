//! A Monte Carlo tree search engine for Othello/Reversi, together with the
//! rules engine that drives it: board mechanics, game states, the search
//! tree, and the pluggable selection/expansion/decision policies.

pub mod agent;
pub mod data;
pub mod gameplay;
pub mod mcst;
pub mod mechanics;
mod timing;
