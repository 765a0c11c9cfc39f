//! What a token sequence means.
//!
//! A well-formed sequence is `operand (operator operand)*`. Its tree follows
//! the grammar
//!
//! ```text
//! expr := term (('+' | '-') term)*
//! term := operand (('*' | '/') operand)*
//! ```
//!
//! with both repetitions grouping to the left.

use crate::expr::{EqOperator, Equation};
use crate::token::EqBuild;
use vstd::prelude::*;

verus! {

/// The operators that bind first.
pub open spec fn high_tier() -> Seq<EqOperator> {
    seq![EqOperator::Mul, EqOperator::Div]
}

/// The operators that bind last.
pub open spec fn low_tier() -> Seq<EqOperator> {
    seq![EqOperator::Add, EqOperator::Sub]
}

/// Whether `op` is `+` or `-`.
pub open spec fn is_low(op: EqOperator) -> bool {
    op == EqOperator::Add || op == EqOperator::Sub
}

/// Operands and operators alternate, with an operand at both ends.
pub open spec fn well_formed(s: Seq<EqBuild>) -> bool {
    &&& s.len() % 2 == 1
    &&& forall|i: int| 0 <= i < s.len() ==> (#[trigger] s[i]).is_operand() == (i % 2 == 0)
}

/// The tree of a well-formed sequence read without precedence: every
/// operator applies to all that stands to its left.
pub open spec fn chain(s: Seq<EqBuild>) -> Equation
    decreases s.len(),
{
    if s.len() < 3 {
        s[0].operand()
    } else {
        let n = s.len() as int;
        Equation::node(s[n - 2].operator(), chain(s.take(n - 2)), s[n - 1].operand())
    }
}

/// The position of the last `+` or `-` of a well-formed sequence, or -1.
pub open spec fn last_low(s: Seq<EqBuild>) -> int
    decreases s.len(),
{
    if s.len() < 3 {
        -1
    } else if is_low(s[s.len() - 2].operator()) {
        s.len() - 2
    } else {
        last_low(s.take(s.len() - 2))
    }
}

/// Where the last `+` or `-` stands, if there is one.
pub proof fn lemma_last_low(s: Seq<EqBuild>)
    ensures
        last_low(s) == -1 || (1 <= last_low(s) <= s.len() - 2 && is_low(
            s[last_low(s)].operator(),
        )),
        s.len() % 2 == 1 ==> last_low(s) % 2 != 0,
        s.len() % 2 == 1 ==> forall|i: int|
            last_low(s) < i < s.len() && i % 2 == 1 ==> !is_low((#[trigger] s[i]).operator()),
    decreases s.len(),
{
    if s.len() >= 3 && !is_low(s[s.len() - 2].operator()) {
        let t = s.take(s.len() - 2);
        lemma_last_low(t);
        if s.len() % 2 == 1 {
            assert forall|i: int| last_low(s) < i < s.len() && i % 2 == 1 implies !is_low(
                (#[trigger] s[i]).operator(),
            ) by {
                if i < t.len() {
                    assert(t[i] == s[i]);
                }
            }
        }
    }
}

/// The tree of a well-formed sequence: the last `+` or `-` is the root, with
/// the tree of all before it on its left and the chain of `*` and `/` after
/// it on its right; without any, the whole is one such chain.
pub open spec fn tree(s: Seq<EqBuild>) -> Equation
    decreases s.len(),
{
    let j = last_low(s);
    if j < 0 {
        chain(s)
    } else {
        proof {
            lemma_last_low(s);
        }
        Equation::node(s[j].operator(), tree(s.take(j)), chain(s.skip(j + 1)))
    }
}

/// `g` with one more operator and operand behind it: an operator of the tier
/// takes the last operand of `g` as its left side, any other stays a token.
pub open spec fn attach(
    g: Seq<EqBuild>,
    op: EqOperator,
    e: Equation,
    tier: Seq<EqOperator>,
) -> Seq<EqBuild> {
    if tier.contains(op) {
        g.drop_last().push(EqBuild::Equation(Equation::node(op, g.last().operand(), e)))
    } else {
        g.push(EqBuild::Operator(op)).push(EqBuild::Equation(e))
    }
}

/// A well-formed sequence with every maximal chain of operators of the tier
/// replaced by the one operand that groups the chain to the left.
pub open spec fn grouped(s: Seq<EqBuild>, tier: Seq<EqOperator>) -> Seq<EqBuild>
    decreases s.len(),
{
    if s.len() < 3 {
        s
    } else {
        let n = s.len() as int;
        attach(grouped(s.take(n - 2), tier), s[n - 2].operator(), s[n - 1].operand(), tier)
    }
}

} // verus!
