//! From text to number in one call.

use crate::expr::{ArithmeticError, Equation};
use crate::reducer::parsed;
use crate::token::ParseError;
use vstd::prelude::*;

verus! {

/// Why a text has no value: it is no expression, or its evaluation failed.
#[derive(Debug, PartialEq, Eq, Clone, Copy, Structural)]
pub enum SolveError {
    Parse(ParseError),
    Arithmetic(ArithmeticError),
}

/// The value of a text, or the first failure on the way to it.
pub open spec fn solved(text: Seq<char>) -> Result<i32, SolveError> {
    match parsed(text) {
        Err(e) => Err(SolveError::Parse(e)),
        Ok(equation) => match equation.value() {
            Err(e) => Err(SolveError::Arithmetic(e)),
            Ok(v) => Ok(v),
        },
    }
}

/// The evaluator of texts.
pub struct Cas;

impl Cas {
    /// Parses `input` and evaluates the tree. The error of the stage that
    /// failed first comes back unchanged.
    pub fn solve(input: &str) -> (res: Result<i32, SolveError>)
        ensures
            res == solved(input@),
    {
        let equation = match Equation::parse(input) {
            Ok(equation) => equation,
            Err(e) => {
                return Err(SolveError::Parse(e));
            },
        };
        match equation.solve() {
            Ok(v) => Ok(v),
            Err(e) => Err(SolveError::Arithmetic(e)),
        }
    }
}

} // verus!
