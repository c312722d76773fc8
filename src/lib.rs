//! Incremental Boolean satisfiability behind a small, safe interface:
//! variables and literals with a fixed integer encoding, and a solver
//! handle that takes clauses and answers queries under assumptions.

pub mod lit;
pub mod solver;

pub use lit::{Lit, Var};
pub use solver::SimpSolver;
