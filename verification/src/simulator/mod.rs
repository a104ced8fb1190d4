pub mod naive_simulator;
