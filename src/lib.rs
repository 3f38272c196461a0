pub mod agreement;
pub mod bound;
pub mod check_sat;
pub mod checker;
pub mod dimacs;
pub mod formula;
pub mod luby;
pub mod resolution;
pub mod solver;
pub mod stats;
pub mod types;
