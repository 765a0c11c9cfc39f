//! The reduction passes build the tree of the grammar.

use crate::expr::EqOperator;
use crate::grammar::{
    chain, grouped, high_tier, is_low, last_low, lemma_last_low, low_tier, tree, well_formed,
};
use crate::reducer::{collapse, is_site, pass, scan};
use crate::token::EqBuild;
use vstd::prelude::*;

verus! {

/// A well-formed sequence without its last operator and operand is
/// well-formed.
pub proof fn lemma_well_formed_prefix(s: Seq<EqBuild>)
    requires
        well_formed(s),
        s.len() >= 3,
    ensures
        well_formed(s.take(s.len() - 2)),
        s[s.len() - 2] == EqBuild::Operator(s[s.len() - 2].operator()),
        s[s.len() - 1] == EqBuild::Equation(s[s.len() - 1].operand()),
{
    let t = s.take(s.len() - 2);
    assert forall|i: int| 0 <= i < t.len() implies (#[trigger] t[i]).is_operand() == (i % 2
        == 0) by {
        assert(t[i] == s[i]);
    }
}

/// Grouping keeps a sequence well-formed and does not lengthen it.
pub proof fn lemma_grouped_well_formed(s: Seq<EqBuild>, tier: Seq<EqOperator>)
    requires
        well_formed(s),
    ensures
        well_formed(grouped(s, tier)),
        grouped(s, tier).len() <= s.len(),
    decreases s.len(),
{
    if s.len() >= 3 {
        let n = s.len() as int;
        lemma_well_formed_prefix(s);
        lemma_grouped_well_formed(s.take(n - 2), tier);
        let g = grouped(s.take(n - 2), tier);
        let r = grouped(s, tier);
        assert forall|i: int| 0 <= i < r.len() implies (#[trigger] r[i]).is_operand() == (i % 2
            == 0) by {
            if i < g.len() - 1 {
                assert(r[i] == g[i]);
            }
        }
    }
}

/// A pass that has grouped `x` and stands behind it groups the rest too.
proof fn lemma_scan_grouped(x: Seq<EqBuild>, r: Seq<EqBuild>, tier: Seq<EqOperator>)
    requires
        well_formed(x + r),
        x.len() % 2 == 1,
    ensures
        scan(grouped(x, tier) + r, tier, grouped(x, tier).len() as int) == (
            grouped(x + r, tier),
            true,
        ),
    decreases r.len(),
{
    let s = x + r;
    assert forall|k: int| 0 <= k < x.len() implies (#[trigger] x[k]).is_operand() == (k % 2
        == 0) by {
        assert(x[k] == s[k]);
    }
    lemma_grouped_well_formed(x, tier);
    let g = grouped(x, tier);
    let cur = g + r;
    let i = g.len() as int;
    if r.len() > 0 {
        // the next two tokens are an operator and an operand
        let m = x.len() as int;
        assert(s[m] == r[0]);
        assert(s[m + 1] == r[1]);
        let x2 = x + r.take(2);
        let r2 = r.skip(2);
        assert(x2 + r2 == s);
        assert(x2.take(x2.len() - 2) == x);
        let g2 = grouped(x2, tier);
        lemma_scan_grouped(x2, r2, tier);
        if tier.contains(r[0].operator()) {
            // the pass collapses them with the last operand and stays
            assert(collapse(cur, i) == g2 + r2);
        } else {
            // the pass steps over both
            assert(cur == g2 + r2);
            assert(scan(cur, tier, i) == scan(cur, tier, i + 1));
        }
    }
}

/// On a well-formed sequence a pass comes to the end, and leaves every
/// maximal chain of operators of its tier grouped to the left.
pub proof fn lemma_pass_grouped(s: Seq<EqBuild>, tier: Seq<EqOperator>)
    requires
        well_formed(s),
    ensures
        pass(s, tier) == (grouped(s, tier), true),
{
    let x = s.take(1);
    let r = s.skip(1);
    assert(x + r == s);
    lemma_scan_grouped(x, r, tier);
}

/// A collapse turns only a well-formed sequence into a well-formed one.
proof fn lemma_collapse_reflects(s: Seq<EqBuild>, i: int)
    requires
        1 <= i < s.len() - 1,
        s[i - 1].is_operand(),
        s[i] is Operator,
        s[i + 1].is_operand(),
        well_formed(collapse(s, i)),
    ensures
        well_formed(s),
{
    let c = collapse(s, i);
    assert(c[i - 1].is_operand());
    assert forall|k: int| 0 <= k < s.len() implies (#[trigger] s[k]).is_operand() == (k % 2
        == 0) by {
        if k < i - 1 {
            assert(c[k] == s[k]);
        } else if k > i + 1 {
            assert(c[k - 2] == s[k]);
        }
    }
}

/// A pass that comes to the end with a well-formed sequence began with one.
pub proof fn lemma_scan_reflects(s: Seq<EqBuild>, tier: Seq<EqOperator>, i: int)
    requires
        scan(s, tier, i).1,
        well_formed(scan(s, tier, i).0),
    ensures
        well_formed(s),
    decreases s.len() - i,
{
    if i < 1 || i + 1 >= s.len() {
    } else if is_site(s, tier, i) {
        lemma_scan_reflects(collapse(s, i), tier, i);
        lemma_collapse_reflects(s, i);
    } else {
        lemma_scan_reflects(s, tier, i + 1);
    }
}

/// Where every operator belongs to the tier, grouping leaves the one
/// operand that chains the whole sequence.
pub proof fn lemma_grouped_chain(s: Seq<EqBuild>, tier: Seq<EqOperator>)
    requires
        well_formed(s),
        forall|i: int| 0 <= i < s.len() && i % 2 == 1 ==> tier.contains((#[trigger] s[i]).operator()),
    ensures
        grouped(s, tier) == seq![EqBuild::Equation(chain(s))],
    decreases s.len(),
{
    if s.len() >= 3 {
        let n = s.len() as int;
        let t = s.take(n - 2);
        lemma_well_formed_prefix(s);
        assert forall|i: int| 0 <= i < t.len() && i % 2 == 1 implies tier.contains(
            (#[trigger] t[i]).operator(),
        ) by {
            assert(t[i] == s[i]);
        }
        lemma_grouped_chain(t, tier);
    }
}

/// Grouping works on both sides of an operator outside the tier apart.
pub proof fn lemma_grouped_split(
    a: Seq<EqBuild>,
    op: EqOperator,
    b: Seq<EqBuild>,
    tier: Seq<EqOperator>,
)
    requires
        well_formed(a),
        well_formed(b),
        !tier.contains(op),
    ensures
        grouped(a.push(EqBuild::Operator(op)) + b, tier) == grouped(a, tier).push(
            EqBuild::Operator(op),
        ) + grouped(b, tier),
    decreases b.len(),
{
    let s = a.push(EqBuild::Operator(op)) + b;
    let n = s.len() as int;
    if b.len() < 3 {
        assert(s.take(n - 2) == a);
    } else {
        let m = b.len() as int;
        let b0 = b.take(m - 2);
        lemma_well_formed_prefix(b);
        lemma_grouped_split(a, op, b0, tier);
        lemma_grouped_well_formed(b0, tier);
        assert(s.take(n - 2) == a.push(EqBuild::Operator(op)) + b0);
    }
}

/// Grouping `*` and `/` first and `+` and `-` then leaves the one operand
/// that is the tree of the sequence.
pub proof fn lemma_grouped_tree(s: Seq<EqBuild>)
    requires
        well_formed(s),
    ensures
        grouped(grouped(s, high_tier()), low_tier()) == seq![EqBuild::Equation(tree(s))],
    decreases s.len(),
{
    lemma_last_low(s);
    let j = last_low(s);
    assert forall|op: EqOperator| !is_low(op) implies high_tier().contains(op) by {
        assert(high_tier()[0] == EqOperator::Mul);
        assert(high_tier()[1] == EqOperator::Div);
    }
    assert forall|op: EqOperator| is_low(op) implies low_tier().contains(op)
        && !high_tier().contains(op) by {
        assert(low_tier()[0] == EqOperator::Add);
        assert(low_tier()[1] == EqOperator::Sub);
    }
    if j < 0 {
        lemma_grouped_chain(s, high_tier());
    } else {
        let a = s.take(j);
        let b = s.skip(j + 1);
        let op = s[j].operator();
        assert(s == a.push(EqBuild::Operator(op)) + b);
        assert forall|i: int| 0 <= i < a.len() implies (#[trigger] a[i]).is_operand() == (i % 2
            == 0) by {
            assert(a[i] == s[i]);
        }
        assert forall|i: int| 0 <= i < b.len() implies (#[trigger] b[i]).is_operand() == (i % 2
            == 0) by {
            assert(b[i] == s[i + j + 1]);
        }
        assert forall|i: int| 0 <= i < b.len() && i % 2 == 1 implies high_tier().contains(
            (#[trigger] b[i]).operator(),
        ) by {
            assert(b[i] == s[i + j + 1]);
        }
        // the sequence is `a`, the last `+` or `-`, and a chain `b`
        lemma_grouped_split(a, op, b, high_tier());
        lemma_grouped_chain(b, high_tier());
        lemma_grouped_tree(a);
        lemma_grouped_well_formed(a, high_tier());
        let g = grouped(s, high_tier());
        assert(g.take(g.len() - 2) == grouped(a, high_tier()));
    }
}

/// The two passes in turn, `*` and `/` before `+` and `-`, come to the end
/// with exactly one operand if and only if the sequence is well-formed, and
/// that operand is then the tree of the sequence.
pub proof fn lemma_passes_build_tree(s: Seq<EqBuild>)
    ensures
        well_formed(s) ==> pass(s, high_tier()) == (grouped(s, high_tier()), true) && pass(
            grouped(s, high_tier()),
            low_tier(),
        ) == (seq![EqBuild::Equation(tree(s))], true),
        !well_formed(s) && pass(s, high_tier()).1 && pass(pass(s, high_tier()).0, low_tier()).1
            ==> !well_formed(pass(pass(s, high_tier()).0, low_tier()).0),
{
    if well_formed(s) {
        lemma_pass_grouped(s, high_tier());
        lemma_grouped_well_formed(s, high_tier());
        lemma_pass_grouped(grouped(s, high_tier()), low_tier());
        lemma_grouped_tree(s);
    } else if pass(s, high_tier()).1 && pass(pass(s, high_tier()).0, low_tier()).1 {
        let first = pass(s, high_tier()).0;
        if well_formed(pass(first, low_tier()).0) {
            lemma_scan_reflects(first, low_tier(), 1);
            lemma_scan_reflects(s, high_tier(), 1);
        }
    }
}

} // verus!
