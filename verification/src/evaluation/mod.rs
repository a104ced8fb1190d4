pub mod evaluation;
pub mod manhattan;
pub mod naive_bonus;
