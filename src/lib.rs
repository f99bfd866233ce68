//! Parsing, simplification and equation solving for algebraic expressions.
use vstd::prelude::*;
use vstd::string::StringExecFns;

pub mod error;
pub mod expr;
pub mod laws;
pub mod optimizer;
pub mod parser;
pub mod rational;
pub mod render;

use crate::error::{optimizer_message, parser_message, OptimizerError, ParserError};
use crate::expr::{Expr, Term};
use crate::optimizer::{simplified, solved};
use crate::parser::{count_char, equation_of, parse, parse_equation, parsed};
use crate::render::latex;

verus! {

/// The variable that `optimize` biases its rewriting toward.
pub open spec fn default_target() -> Seq<char> {
    seq!['X']
}

/// Simplifies a tree toward `X` and typesets the result.
pub fn optimize_tree(e: Expr) -> (r: Result<String, OptimizerError>)
    ensures
        match simplified(e@, default_target()) {
            Ok(t) => r matches Ok(s) && s@ == latex(t),
            Err(x) => r == Err::<String, OptimizerError>(x),
        },
{
    let target = String::from_str("X");
    proof {
        reveal_strlit("X");
        assert(target@ =~= default_target());
    }
    match e.optimize_expression(target) {
        Ok(t) => Ok(t.as_latex()),
        Err(x) => Err(x),
    }
}

/// Solves an equation tree for `target` and typesets the result.
pub fn solve_tree(e: Expr, target: &str) -> (r: Result<String, OptimizerError>)
    ensures
        match solved(e@, target@) {
            Ok(t) => r matches Ok(s) && s@ == latex(t),
            Err(x) => r == Err::<String, OptimizerError>(x),
        },
{
    match e.optimize_equation(target.to_owned()) {
        Ok(t) => Ok(t.as_latex()),
        Err(x) => Err(x),
    }
}

/// Parses, simplifies and typesets an expression; errors come back as text.
pub fn optimize(expression: &str) -> (r: Result<String, String>)
    ensures
        match parsed(expression@) {
            None => r is Err,
            Some(t) => match simplified(t, default_target()) {
                Ok(u) => r matches Ok(x) && x@ == latex(u),
                Err(e) => r matches Err(m) && m@ == optimizer_message(e),
            },
        },
{
    let parsed = match parse(expression) {
        Ok(e) => e,
        Err(x) => return Err(x.message()),
    };
    match optimize_tree(parsed) {
        Ok(s) => Ok(s),
        Err(x) => Err(x.message()),
    }
}

/// Parses an equation, isolates `target` and typesets the result; errors come
/// back as text.
pub fn optimize_equation(expression: &str, target: &str) -> (r: Result<String, String>)
    ensures
        count_char(expression@, '=') == 0 ==> (r matches Err(m) && m@ == parser_message(
            ParserError::NoEquals,
        )),
        count_char(expression@, '=') > 1 ==> (r matches Err(m) && m@ == parser_message(
            ParserError::EqualsCount,
        )),
        count_char(expression@, '=') == 1 ==> match equation_of(expression@) {
            None => r is Err,
            Some(t) => match solved(t, target@) {
                Ok(u) => r matches Ok(x) && x@ == latex(u),
                Err(e) => r matches Err(m) && m@ == optimizer_message(e),
            },
        },
{
    let parsed = match parse_equation(expression) {
        Ok(e) => e,
        Err(x) => return Err(x.message()),
    };
    match solve_tree(parsed, target) {
        Ok(s) => Ok(s),
        Err(x) => Err(x.message()),
    }
}

} // verus!
