use vstd::prelude::*;
use vstd::string::StringExecFns;

verus! {

/// Why a text could not be parsed.
#[derive(Debug)]
pub enum ParserError {
    NoFunctionName,
    NoEquals,
    EqualsCount,
    InvalidToken(String),
    InvalidOperator(String),
    UnknownConstant(String),
}

/// Why a numeric evaluation failed.
#[derive(Debug)]
pub enum EvaluatorError {
    UnknownFunction(String),
    ParseFailure(ParserError),
    EqualityInEval,
    WrongArity(String, usize, usize),
}

/// Why simplifying or solving failed.
#[derive(Debug, Clone, Copy, PartialEq, Eq, Structural)]
pub enum OptimizerError {
    /// An `=` stood inside an expression that was being simplified.
    EqualityInTerm,
    /// The tree handed to the solver is not rooted at an `=`.
    NotAnEquation,
    /// The rewriting did not settle within the pass limit.
    NoFixedPoint,
}

/// The message of a parse error.
pub open spec fn parser_message(e: ParserError) -> Seq<char> {
    match e {
        ParserError::NoFunctionName => "Syntax error: no name found for function"@,
        ParserError::NoEquals => "Syntax error: no equals sign found '='"@,
        ParserError::EqualsCount => "Syntax error: too many equals signs"@,
        ParserError::InvalidToken(t) => "Syntax error: invalid token '"@ + t@ + "'"@,
        ParserError::InvalidOperator(t) => "Syntax error: invalid operator '"@ + t@ + "'"@,
        ParserError::UnknownConstant(t) => "Syntax error: unknown constant '"@ + t@ + "'"@,
    }
}

/// The message of a simplification error.
pub open spec fn optimizer_message(e: OptimizerError) -> Seq<char> {
    match e {
        OptimizerError::EqualityInTerm => "Equality found in expression"@,
        OptimizerError::NotAnEquation => "Not an equation"@,
        OptimizerError::NoFixedPoint => "Simplification did not settle within the pass limit"@,
    }
}

impl ParserError {
    /// The message shown to a user.
    pub fn message(&self) -> (r: String)
        ensures
            r@ == parser_message(*self),
    {
        match self {
            ParserError::NoFunctionName => String::from_str("Syntax error: no name found for function"),
            ParserError::NoEquals => String::from_str("Syntax error: no equals sign found '='"),
            ParserError::EqualsCount => String::from_str("Syntax error: too many equals signs"),
            ParserError::InvalidToken(t) => String::from_str("Syntax error: invalid token '").concat(
                t.as_str(),
            ).concat("'"),
            ParserError::InvalidOperator(t) => String::from_str(
                "Syntax error: invalid operator '",
            ).concat(t.as_str()).concat("'"),
            ParserError::UnknownConstant(t) => String::from_str(
                "Syntax error: unknown constant '",
            ).concat(t.as_str()).concat("'"),
        }
    }
}

impl OptimizerError {
    /// The message shown to a user.
    pub fn message(&self) -> (r: String)
        ensures
            r@ == optimizer_message(*self),
    {
        match self {
            OptimizerError::EqualityInTerm => String::from_str("Equality found in expression"),
            OptimizerError::NotAnEquation => String::from_str("Not an equation"),
            OptimizerError::NoFixedPoint => String::from_str(
                "Simplification did not settle within the pass limit",
            ),
        }
    }
}

} // verus!
