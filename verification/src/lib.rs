//! A rollout-based action planner for a two-player, turn-based forest game
//! played on a hexagonal board.

pub mod action;
pub mod board;
pub mod chance;
pub mod clock;
pub mod forest;
pub mod generator;
pub mod laws;
pub mod planner;
pub mod protocol;
pub mod rollout;
pub mod rules;
pub mod scorer;
pub mod simulator;
pub mod state;
pub mod sun;
pub mod tally;
