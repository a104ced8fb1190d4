pub mod action;
pub mod board;
pub mod flags;
pub mod grid;
pub mod jumps;
pub mod laws;
pub mod rules;
