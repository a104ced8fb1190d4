pub mod action_path;
pub mod alpha_beta_solver;
pub mod brute_force_search_solver;
pub mod laws;
pub mod mcts_solver;
pub mod minimax;
pub mod mix_solver;
pub mod solver;
