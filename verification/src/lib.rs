//! A CDCL satisfiability solver with two-watched-literal propagation, clause
//! learning and learning-rate based branching, together with a DIMACS reader
//! and a Sudoku encoder that use it.

use vstd::prelude::*;

pub mod cnf;
pub mod driver;
pub mod io;
pub mod parser;
pub mod sudoku;
pub mod util;

verus! {

/// The verdict of a solver run.
#[derive(Debug, PartialEq, Eq, Copy, Clone, Structural)]
pub enum SolverResult {
    /// A model exists; it can be read off the problem.
    Sat,
    /// No model exists.
    Unsat,
    /// The conflict counter ran out before a verdict was reached.
    Unknown,
}

} // verus!
