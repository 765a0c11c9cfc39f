//! Expression trees and their evaluation.
//!
//! An evaluation fails only on a division by zero. What overflows wraps
//! around.

use crate::arith::{lemma_checked_div, lemma_wrap_small, lemma_wrapping_ops, trunc_div, wrap};
use vstd::prelude::*;

verus! {

/// The four binary operators.
#[derive(Debug, PartialEq, Eq, Clone, Copy, Structural)]
pub enum EqOperator {
    Mul,
    Sub,
    Div,
    Add,
}

/// An arithmetic expression: a literal, or an operator applied to two
/// subexpressions that the node owns. The left subexpression comes first.
#[derive(Debug, PartialEq, Eq)]
pub enum Equation {
    Num(i32),
    Add(Box<Equation>, Box<Equation>),
    Div(Box<Equation>, Box<Equation>),
    Sub(Box<Equation>, Box<Equation>),
    Mul(Box<Equation>, Box<Equation>),
}

/// Why an evaluation failed.
#[derive(Debug, PartialEq, Eq, Clone, Copy, Structural)]
pub enum ArithmeticError {
    /// The right operand of a division evaluated to zero.
    DivisionByZero,
}

impl EqOperator {
    /// The result of the operator on two evaluated operands.
    pub open spec fn apply(self, l: i32, r: i32) -> Result<i32, ArithmeticError> {
        match self {
            EqOperator::Add => Ok(wrap(l + r)),
            EqOperator::Sub => Ok(wrap(l - r)),
            EqOperator::Mul => Ok(wrap(l * r)),
            EqOperator::Div => if r == 0 {
                Err(ArithmeticError::DivisionByZero)
            } else {
                Ok(wrap(trunc_div(l as int, r as int)))
            },
        }
    }

    /// Applies the operator to two evaluated operands.
    pub fn eval(self, l: i32, r: i32) -> (res: Result<i32, ArithmeticError>)
        ensures
            res == self.apply(l, r),
    {
        proof {
            lemma_wrapping_ops(l, r);
            if r != 0 {
                lemma_checked_div(l, r);
                if !(l == i32::MIN && r == -1) {
                    lemma_wrap_small(trunc_div(l as int, r as int));
                }
            }
        }
        match self {
            EqOperator::Add => Ok(l.wrapping_add(r)),
            EqOperator::Sub => Ok(l.wrapping_sub(r)),
            EqOperator::Mul => Ok(l.wrapping_mul(r)),
            EqOperator::Div => {
                if r == 0 {
                    Err(ArithmeticError::DivisionByZero)
                } else {
                    match l.checked_div(r) {
                        Some(q) => Ok(q),
                        None => Ok(i32::MIN),
                    }
                }
            },
        }
    }
}

/// The value of `op` applied to two evaluations, the left one first: an
/// error on the left is returned before the right is looked at.
pub open spec fn apply_values(
    op: EqOperator,
    l: Result<i32, ArithmeticError>,
    r: Result<i32, ArithmeticError>,
) -> Result<i32, ArithmeticError> {
    match l {
        Err(e) => Err(e),
        Ok(lv) => match r {
            Err(e) => Err(e),
            Ok(rv) => op.apply(lv, rv),
        },
    }
}

impl Equation {
    /// The node that applies `op` to `lhs` and `rhs`.
    pub open spec fn node(op: EqOperator, lhs: Equation, rhs: Equation) -> Equation {
        match op {
            EqOperator::Add => Equation::Add(Box::new(lhs), Box::new(rhs)),
            EqOperator::Div => Equation::Div(Box::new(lhs), Box::new(rhs)),
            EqOperator::Sub => Equation::Sub(Box::new(lhs), Box::new(rhs)),
            EqOperator::Mul => Equation::Mul(Box::new(lhs), Box::new(rhs)),
        }
    }

    /// What the expression evaluates to.
    pub open spec fn value(self) -> Result<i32, ArithmeticError>
        decreases self,
    {
        match self {
            Equation::Num(v) => Ok(v),
            Equation::Add(a, b) => apply_values(EqOperator::Add, a.value(), b.value()),
            Equation::Div(a, b) => apply_values(EqOperator::Div, a.value(), b.value()),
            Equation::Sub(a, b) => apply_values(EqOperator::Sub, a.value(), b.value()),
            Equation::Mul(a, b) => apply_values(EqOperator::Mul, a.value(), b.value()),
        }
    }

    /// Builds the node that applies `op` to `lhs` and `rhs`.
    pub fn combine(lhs: Equation, rhs: Equation, op: EqOperator) -> (res: Equation)
        ensures
            res == Equation::node(op, lhs, rhs),
    {
        match op {
            EqOperator::Add => Equation::Add(Box::new(lhs), Box::new(rhs)),
            EqOperator::Div => Equation::Div(Box::new(lhs), Box::new(rhs)),
            EqOperator::Sub => Equation::Sub(Box::new(lhs), Box::new(rhs)),
            EqOperator::Mul => Equation::Mul(Box::new(lhs), Box::new(rhs)),
        }
    }

    /// Evaluates the expression, left operand before right.
    pub fn solve(self) -> (res: Result<i32, ArithmeticError>)
        ensures
            res == self.value(),
        decreases self,
    {
        match self {
            Equation::Num(val) => Ok(val),
            Equation::Add(a, b) => {
                let l = a.solve()?;
                let r = b.solve()?;
                EqOperator::Add.eval(l, r)
            },
            Equation::Div(a, b) => {
                let l = a.solve()?;
                let r = b.solve()?;
                EqOperator::Div.eval(l, r)
            },
            Equation::Sub(a, b) => {
                let l = a.solve()?;
                let r = b.solve()?;
                EqOperator::Sub.eval(l, r)
            },
            Equation::Mul(a, b) => {
                let l = a.solve()?;
                let r = b.solve()?;
                EqOperator::Mul.eval(l, r)
            },
        }
    }
}

impl Clone for Equation {
    fn clone(&self) -> (res: Self)
        ensures
            res == *self,
        decreases self,
    {
        match self {
            Equation::Num(v) => Equation::Num(*v),
            Equation::Add(a, b) => Equation::Add(
                Box::new((&**a).clone()),
                Box::new((&**b).clone()),
            ),
            Equation::Div(a, b) => Equation::Div(
                Box::new((&**a).clone()),
                Box::new((&**b).clone()),
            ),
            Equation::Sub(a, b) => Equation::Sub(
                Box::new((&**a).clone()),
                Box::new((&**b).clone()),
            ),
            Equation::Mul(a, b) => Equation::Mul(
                Box::new((&**a).clone()),
                Box::new((&**b).clone()),
            ),
        }
    }
}

} // verus!
