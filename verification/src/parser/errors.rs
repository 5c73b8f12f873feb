use vstd::prelude::*;

verus! {

/// What can be wrong with a text that is to be read as a problem.
#[derive(Debug, Clone, Copy, PartialEq, Eq, Structural)]
pub enum Error {
    /// The text ends where more was to come.
    UnexpectedEnd,
    /// A number is too large.
    Overflow,
    /// The problem is declared to have no clauses: it holds trivially.
    EmptyQuery,
    /// A clause has no literals: it fails trivially.
    EmptyClause,
    /// A number was to come.
    ExpectedInt,
    /// A number, negated or not, was to come.
    ExpectedIntOrNeg,
    /// A byte that has no meaning where it stands.
    UnexpectedByte(u8),
    /// The problem line, which begins with `p`, was to come.
    ExpectedP,
    /// The problem line names another kind of problem than `cnf`.
    ExpectedCNF,
    /// More variables occur than the problem line declares.
    VariableCount { expected: usize, actual: usize },
}

} // verus!
