//! A conflict-driven clause-learning SAT solver over formulas in conjunctive
//! normal form, with its bookkeeping and its answers proved correct.

pub mod lit;
pub mod cnf;
pub mod assignment;
pub mod solver;

pub use assignment::Assignment;
pub use cnf::{CnfFormula, UnknownFormulaFormat};
pub use lit::Lit;
pub use solver::{SolveResult, Solver};
