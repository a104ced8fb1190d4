//! A move engine for a two-player corner-swapping board game: the board and its
//! move rules, heuristic evaluators, a random playout simulator and the search
//! strategies that pick a move.

pub mod board;
pub mod command;
pub mod constants;
pub mod error;
pub mod evaluation;
pub mod simulator;
pub mod solver;
