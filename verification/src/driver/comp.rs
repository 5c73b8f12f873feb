use vstd::prelude::*;

use crate::SolverResult;

verus! {

/// The status with which the program ends in competitions: 10 for a
/// problem that has a model, 20 for one that has none, and 0 where the
/// search has given no answer.
pub open spec fn spec_status(verdict: SolverResult) -> i32 {
    match verdict {
        SolverResult::Sat => 10i32,
        SolverResult::Unsat => 20i32,
        SolverResult::Unknown => 0i32,
    }
}

#[verifier::when_used_as_spec(spec_status)]
pub fn status(verdict: SolverResult) -> (code: i32)
    ensures
        code == spec_status(verdict),
{
    match verdict {
        SolverResult::Sat => 10,
        SolverResult::Unsat => 20,
        SolverResult::Unknown => 0,
    }
}

/// The line that tells the verdict in competitions.
pub fn status_line(verdict: SolverResult) -> (line: &'static str)
    ensures
        line@ == match verdict {
            SolverResult::Sat => "s SATISFIABLE"@,
            SolverResult::Unsat => "s UNSATISFIABLE"@,
            SolverResult::Unknown => "s UNKNOWN"@,
        },
{
    match verdict {
        SolverResult::Sat => "s SATISFIABLE",
        SolverResult::Unsat => "s UNSATISFIABLE",
        SolverResult::Unknown => "s UNKNOWN",
    }
}


} // verus!
