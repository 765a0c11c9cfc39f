//! A small arithmetic expression evaluator: text is split into tokens, the
//! tokens are collapsed into an expression tree by operator precedence, and
//! the tree is evaluated to a 32-bit integer.
//!
//! Numbers are decimal and unsigned; the operators are `+ - * /`, with `*`
//! and `/` binding before `+` and `-` and equal operators grouping to the
//! left. There are no parentheses and no unary minus.

pub mod agreement;
pub mod arith;
pub mod cas;
pub mod expr;
pub mod grammar;
pub mod laws;
pub mod lexer;
pub mod reducer;
pub mod token;

pub use cas::{Cas, SolveError};
pub use expr::{ArithmeticError, EqOperator, Equation};
pub use reducer::{parse_type, reduce};
pub use token::{EqBuild, ParseError};
