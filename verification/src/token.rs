//! Tokens, and the errors of turning text into a tree.

use crate::expr::{EqOperator, Equation};
use vstd::prelude::*;

verus! {

/// One item of the sequence that the reducer works on: an operand, which is
/// a number at first and any combined subexpression later, or an operator.
#[derive(Debug, PartialEq, Eq)]
pub enum EqBuild {
    Equation(Equation),
    Operator(EqOperator),
}

/// Why a text is not an expression.
#[derive(Debug, PartialEq, Eq, Clone, Copy, Structural)]
pub enum ParseError {
    /// An operator without an operand on one of its sides.
    MalformedOperatorPlacement,
    /// A character that is neither whitespace, a digit nor an operator.
    UnexpectedCharacter,
    /// No token at all.
    EmptyExpression,
}

impl EqBuild {
    /// Whether the token is an operand.
    pub open spec fn is_operand(self) -> bool {
        self is Equation
    }

    /// The expression of an operand.
    pub open spec fn operand(self) -> Equation
        recommends
            self is Equation,
    {
        self->Equation_0
    }

    /// The operator of a token that is one.
    pub open spec fn operator(self) -> EqOperator
        recommends
            self is Operator,
    {
        self->Operator_0
    }

    /// Whether the token is an operand.
    pub fn holds_operand(&self) -> (b: bool)
        ensures
            b == self.is_operand(),
    {
        match self {
            EqBuild::Equation(_) => true,
            EqBuild::Operator(_) => false,
        }
    }

    /// The expression of an operand.
    pub(crate) fn into_operand(self) -> (e: Equation)
        requires
            self.is_operand(),
        ensures
            e == self.operand(),
    {
        match self {
            EqBuild::Equation(e) => e,
            EqBuild::Operator(_) => unreached(),
        }
    }
}

} // verus!
