//! An incremental SAT engine specialized for boolean circuits.
//!
//! A caller builds a circuit node by node, attaches each node's driving
//! AND function lazily, restricts reasoning to the backward logic cone of
//! chosen outputs per round, and repeatedly queries satisfiability under
//! changing assumption literals.

pub mod cnf;
pub mod cone;
pub mod engine;
pub mod lit;

pub use engine::Solver;
pub use lit::Lit;
pub use lit::Var;
