//! The ways in which an input can be refused.

use vstd::prelude::*;

verus! {

/// Why an input produced no result.
#[derive(Clone, Copy, Debug, PartialEq, Eq, Structural)]
pub enum Error {
    /// The text is empty or holds only whitespace.
    EmptyInput,
    /// No token begins at character `at` of the text.
    Unrecognized { at: usize },
    /// `help` stands inside an expression.
    EmbeddedHelp,
    /// `graph(` or `=` stands inside an expression.
    EmbeddedEquation,
    /// An operator lacks an operand, or two values stand side by side that
    /// cannot be multiplied implicitly.
    InvalidSequence,
    /// A `)` closes nothing.
    UnmatchedParenthesis,
    /// A `,` stands outside the argument list of a function.
    StrayComma,
    /// The tokens ended before they formed one complete expression.
    Incomplete,
    /// A variable without a value was evaluated.
    FreeVariable,
    /// A marker of the construction was evaluated.
    UnfinishedExpression,
    /// An argument of a function call could not be evaluated.
    BadArgument,
    /// The name is no function that can be evaluated.
    UnknownFunction,
    /// A function of one argument was given another number of arguments.
    Arity,
    /// The arithmetic is not defined on these operands.
    Domain,
    /// A function call holds the variable of a graphed equation.
    FunctionInGraph,
    /// The equation cannot be solved for one variable by peeling operations.
    UnsupportedEquation,
}

/// The classes into which the errors fall.
#[derive(Clone, Copy, Debug, PartialEq, Eq, Structural)]
pub enum ErrorKind {
    Lex,
    Syntax,
    UnknownFunction,
    Arity,
    Domain,
    Graph,
}

impl Error {
    /// The class of this error.
    pub open spec fn spec_kind(self) -> ErrorKind {
        match self {
            Error::EmptyInput => ErrorKind::Lex,
            Error::Unrecognized { .. } => ErrorKind::Syntax,
            Error::EmbeddedHelp => ErrorKind::Syntax,
            Error::EmbeddedEquation => ErrorKind::Syntax,
            Error::InvalidSequence => ErrorKind::Syntax,
            Error::UnmatchedParenthesis => ErrorKind::Syntax,
            Error::StrayComma => ErrorKind::Syntax,
            Error::Incomplete => ErrorKind::Syntax,
            Error::FreeVariable => ErrorKind::Syntax,
            Error::UnfinishedExpression => ErrorKind::Syntax,
            Error::BadArgument => ErrorKind::Syntax,
            Error::UnknownFunction => ErrorKind::UnknownFunction,
            Error::Arity => ErrorKind::Arity,
            Error::Domain => ErrorKind::Domain,
            Error::FunctionInGraph => ErrorKind::Graph,
            Error::UnsupportedEquation => ErrorKind::Graph,
        }
    }

    /// The class of this error.
    #[verifier::when_used_as_spec(spec_kind)]
    pub fn kind(self) -> (k: ErrorKind)
        ensures
            k == self.spec_kind(),
    {
        match self {
            Error::EmptyInput => ErrorKind::Lex,
            Error::Unrecognized { .. } => ErrorKind::Syntax,
            Error::EmbeddedHelp => ErrorKind::Syntax,
            Error::EmbeddedEquation => ErrorKind::Syntax,
            Error::InvalidSequence => ErrorKind::Syntax,
            Error::UnmatchedParenthesis => ErrorKind::Syntax,
            Error::StrayComma => ErrorKind::Syntax,
            Error::Incomplete => ErrorKind::Syntax,
            Error::FreeVariable => ErrorKind::Syntax,
            Error::UnfinishedExpression => ErrorKind::Syntax,
            Error::BadArgument => ErrorKind::Syntax,
            Error::UnknownFunction => ErrorKind::UnknownFunction,
            Error::Arity => ErrorKind::Arity,
            Error::Domain => ErrorKind::Domain,
            Error::FunctionInGraph => ErrorKind::Graph,
            Error::UnsupportedEquation => ErrorKind::Graph,
        }
    }
}

} // verus!
