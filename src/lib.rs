//! Symbolic calculator core: parsing of infix expressions and equations,
//! algebraic rewriting to a fixpoint, canonical printing, and the checks
//! that decide whether a tree can be evaluated numerically.
//!
//! Numbers are exact decimals (`number`), trees have a mathematical view
//! (`expr::Term`), and each stage's contract is stated over that view:
//! `parser::parse_spec` for parsing, `expr::text` for printing,
//! `optimizer::optimize_spec`, `optimizer::settle` and `optimizer::solve`
//! for rewriting (which reports when its pass budget runs out), and
//! `evaluator::fault_of` for what numeric evaluation would meet.

pub mod error;
pub mod evaluator;
pub mod expr;
pub mod number;
pub mod optimizer;
pub mod parser;
