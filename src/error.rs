//! Failure kinds shared by the parser and the evaluator.
use vstd::prelude::*;

verus! {

/// Why a text could not be parsed.
#[derive(Debug, PartialEq, Eq)]
pub enum ParserError {
    /// A function call without a name.
    NoFunctionName,
    /// A lexeme that the grammar does not allow at its place.
    InvalidToken(String),
    /// An operator that the grammar does not know.
    InvalidOperator(String),
    /// An equation without `=`.
    NoEquals,
    /// An equation with more than one `=`.
    EqualsCount,
}

/// Why rewriting gave no result.
#[derive(Debug, PartialEq, Eq)]
pub enum RewriteError {
    /// The pass budget ran out before a pass left the tree unchanged.
    NoFixpoint,
}

/// Why a tree could not be evaluated numerically.
#[derive(Debug, PartialEq, Eq)]
pub enum EvaluatorError {
    /// A call of a function that the library does not have, or with the
    /// wrong number of arguments.
    UnknownFunction(String),
    /// An `=` met during evaluation.
    EqualityInEval,
    /// A monomial (a variable) met during evaluation.
    VariableInEval(String),
    /// The text did not parse.
    ParseFailure(ParserError),
}

} // verus!
