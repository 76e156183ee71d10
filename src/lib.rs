pub mod board;
pub mod solver;

pub use board::Board;
pub use solver::Solver;
