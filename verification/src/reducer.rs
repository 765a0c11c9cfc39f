//! Collapsing a token sequence into one expression, tier by tier.
//!
//! A pass scans the sequence from left to right. Where it meets an operator
//! of its tier between two operands, it replaces the three tokens by the one
//! operand that combines them and looks at the same position again, so that
//! a chain of such operators groups to the left. The first and the last
//! token are never looked at as operators.

use crate::agreement::lemma_passes_build_tree;
use crate::expr::{EqOperator, Equation};
use crate::grammar::{high_tier, low_tier, tree, well_formed};
use crate::lexer::tokenize;
use crate::token::{EqBuild, ParseError};
use vstd::prelude::*;

verus! {

/// Whether position `i` holds an operator of the tier.
pub open spec fn is_site(s: Seq<EqBuild>, tier: Seq<EqOperator>, i: int) -> bool {
    s[i] is Operator && tier.contains(s[i].operator())
}

/// The sequence with the operator at `i` and the operands on both its sides
/// replaced by the single operand that combines them.
pub open spec fn collapse(s: Seq<EqBuild>, i: int) -> Seq<EqBuild>
    recommends
        1 <= i < s.len() - 1,
        s[i - 1].is_operand(),
        s[i] is Operator,
        s[i + 1].is_operand(),
{
    s.subrange(0, i - 1).push(
        EqBuild::Equation(Equation::node(s[i].operator(), s[i - 1].operand(), s[i + 1].operand())),
    ) + s.subrange(i + 2, s.len() as int)
}

/// The outcome of a pass that stands at position `i`: the tokens it leaves,
/// and whether it came to the end. It stops early, and leaves the tokens as
/// they are then, where an operator of the tier has no operand on one side.
pub open spec fn scan(s: Seq<EqBuild>, tier: Seq<EqOperator>, i: int) -> (Seq<EqBuild>, bool)
    decreases s.len() - i,
{
    if i < 1 || i + 1 >= s.len() {
        (s, true)
    } else if is_site(s, tier, i) {
        if s[i - 1].is_operand() && s[i + 1].is_operand() {
            scan(collapse(s, i), tier, i)
        } else {
            (s, false)
        }
    } else {
        scan(s, tier, i + 1)
    }
}

/// The outcome of a whole pass over `s`.
pub open spec fn pass(s: Seq<EqBuild>, tier: Seq<EqOperator>) -> (Seq<EqBuild>, bool) {
    scan(s, tier, 1)
}

/// The tree of a token sequence, or why it has none.
pub open spec fn reduction(tokens: Seq<EqBuild>) -> Result<Equation, ParseError> {
    if tokens.len() == 0 {
        Err(ParseError::EmptyExpression)
    } else if !well_formed(tokens) {
        Err(ParseError::MalformedOperatorPlacement)
    } else {
        Ok(tree(tokens))
    }
}

/// The tree of a text, or why it has none.
pub open spec fn parsed(text: Seq<char>) -> Result<Equation, ParseError> {
    match tokenize(text) {
        Ok(tokens) => reduction(tokens),
        Err(e) => Err(e),
    }
}

/// Whether `op` is one of `to_match`.
fn tier_has(to_match: &[EqOperator], op: EqOperator) -> (b: bool)
    ensures
        b == to_match@.contains(op),
{
    let mut k: usize = 0;
    while k < to_match.len()
        invariant
            k <= to_match.len(),
            forall|j: int| 0 <= j < k ==> to_match@[j] != op,
        decreases to_match.len() - k,
    {
        if to_match[k] == op {
            return true;
        }
        k += 1;
    }
    false
}

/// One reduction pass over `chars` for the operators in `to_match`.
///
/// On success every operator of the tier that stood between two operands,
/// away from both ends, has been collapsed with them. Fails with
/// `MalformedOperatorPlacement` at the first such operator, away from both
/// ends, that lacks an operand on one side; the tokens then stay as they
/// were when it was met.
pub fn parse_type(chars: &mut Vec<EqBuild>, to_match: &[EqOperator]) -> (res: Result<
    (),
    ParseError,
>)
    ensures
        final(chars)@ == pass(old(chars)@, to_match@).0,
        res is Ok <==> pass(old(chars)@, to_match@).1,
        res is Err ==> res == Err::<(), ParseError>(ParseError::MalformedOperatorPlacement),
{
    if chars.len() == 0 {
        return Ok(());
    }
    let mut i: usize = 1;
    while i < chars.len() - 1
        invariant
            1 <= i,
            1 <= chars.len(),
            scan(chars@, to_match@, i as int) == pass(old(chars)@, to_match@),
        decreases chars.len() - i,
    {
        let site = match &chars[i] {
            EqBuild::Operator(op) => if tier_has(to_match, *op) {
                Some(*op)
            } else {
                None
            },
            EqBuild::Equation(_) => None,
        };
        match site {
            Some(operator) => {
                if !chars[i - 1].holds_operand() || !chars[i + 1].holds_operand() {
                    return Err(ParseError::MalformedOperatorPlacement);
                }
                let ghost before = chars@;
                let rhs = chars.remove(i + 1);
                let lhs = chars.remove(i - 1);
                let res = Equation::combine(lhs.into_operand(), rhs.into_operand(), operator);
                chars[i - 1] = EqBuild::Equation(res);
                assert(chars@ == collapse(before, i as int));
            },
            None => {
                i += 1;
            },
        }
    }
    Ok(())
}

/// Reduces a token sequence to its tree: a pass for `*` and `/`, then a
/// pass for `+` and `-`.
///
/// Fails with `EmptyExpression` on no tokens, and with
/// `MalformedOperatorPlacement` on tokens that do not alternate between
/// operand and operator from an operand to an operand.
pub fn reduce(tokens: Vec<EqBuild>) -> (res: Result<Equation, ParseError>)
    ensures
        res == reduction(tokens@),
{
    let ghost given = tokens@;
    let mut chars = tokens;
    if chars.is_empty() {
        return Err(ParseError::EmptyExpression);
    }
    proof {
        lemma_passes_build_tree(given);
    }
    let high = [EqOperator::Mul, EqOperator::Div];
    let low = [EqOperator::Add, EqOperator::Sub];
    parse_type(&mut chars, high.as_slice())?;
    parse_type(&mut chars, low.as_slice())?;
    if chars.len() != 1 {
        return Err(ParseError::MalformedOperatorPlacement);
    }
    match chars.pop() {
        Some(EqBuild::Equation(eq)) => Ok(eq),
        _ => Err(ParseError::MalformedOperatorPlacement),
    }
}

impl Equation {
    /// Parses `input` into its tree.
    ///
    /// Fails with `UnexpectedCharacter` on a character that is neither
    /// whitespace, a digit nor an operator; else with `EmptyExpression` if
    /// nothing but whitespace is there; else with
    /// `MalformedOperatorPlacement` if an operator lacks an operand.
    pub fn parse(input: &str) -> (res: Result<Equation, ParseError>)
        ensures
            res == parsed(input@),
    {
        let chars = Self::first_compile(input)?;
        reduce(chars)
    }
}

} // verus!
