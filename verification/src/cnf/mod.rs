pub mod literal;
pub use self::literal::Literal;

pub mod variable;

pub mod order;
pub use self::variable::{Variable, VariableId};

pub mod valuation;

pub mod logic;

pub mod watching;

pub mod clause;
pub use self::clause::Clause;

pub mod problem;
pub use self::problem::Problem;

pub mod print;

pub mod util;

pub mod problembuilder;
pub use self::problembuilder::{ClauseBuilder, ProblemBuilder};
