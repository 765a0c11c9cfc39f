//! What holds of every input.

use crate::arith::{
    lemma_wrap_add, lemma_wrap_mul, lemma_wrap_small, lemma_wrap_sub, trunc_div, wrap,
};
use crate::cas::{solved, SolveError};
use crate::expr::{ArithmeticError, EqOperator, Equation};
use crate::grammar::{chain, is_low, last_low, lemma_last_low, tree, well_formed};
use crate::lexer::{
    is_digit, leading_digits, lemma_leading_digits_bound, lemma_leading_digits_maximal,
    lemma_leading_digits_run, lex, lexable, number, operator_of, strip, tokenize, whitespace,
};
use crate::reducer::{parsed, reduction};
use crate::token::{EqBuild, ParseError};
use vstd::prelude::*;

verus! {

/// A division whose right side evaluates to zero fails, whatever its left
/// side is.
pub proof fn lemma_division_by_zero(a: Equation, b: Equation)
    requires
        b.value() == Ok::<i32, ArithmeticError>(0),
    ensures
        Equation::node(EqOperator::Div, a, b).value() == Err::<i32, ArithmeticError>(
            ArithmeticError::DivisionByZero,
        ),
{
}

/// Precedence: a `+` or `-` that is followed by nothing but operands joined
/// by `*` and `/` is the root of the tree, with all that follows as its right
/// side.
pub proof fn lemma_precedence(a: Seq<EqBuild>, op: EqOperator, b: Seq<EqBuild>)
    requires
        well_formed(a),
        well_formed(b),
        is_low(op),
        forall|i: int| 0 <= i < b.len() && i % 2 == 1 ==> !is_low((#[trigger] b[i]).operator()),
    ensures
        well_formed(a.push(EqBuild::Operator(op)) + b),
        tree(a.push(EqBuild::Operator(op)) + b) == Equation::node(op, tree(a), chain(b)),
    decreases b.len(),
{
    let s = a.push(EqBuild::Operator(op)) + b;
    let j = a.len() as int;
    assert forall|i: int| 0 <= i < s.len() implies (#[trigger] s[i]).is_operand() == (i % 2
        == 0) by {
        if i < j {
            assert(s[i] == a[i]);
        } else if i > j {
            assert(s[i] == b[i - j - 1]);
        }
    }
    assert(last_low(s) == j) by {
        lemma_last_low_split(a, op, b);
    }
    assert(s.take(j) == a);
    assert(s.skip(j + 1) == b);
}

/// The last `+` or `-` of a sequence that ends in a chain of `*` and `/` is
/// the one before that chain.
proof fn lemma_last_low_split(a: Seq<EqBuild>, op: EqOperator, b: Seq<EqBuild>)
    requires
        a.len() >= 1,
        b.len() % 2 == 1,
        is_low(op),
        forall|i: int| 0 <= i < b.len() && i % 2 == 1 ==> !is_low((#[trigger] b[i]).operator()),
    ensures
        last_low(a.push(EqBuild::Operator(op)) + b) == a.len(),
    decreases b.len(),
{
    let s = a.push(EqBuild::Operator(op)) + b;
    let n = s.len() as int;
    if b.len() >= 3 {
        let m = b.len() as int;
        let b0 = b.take(m - 2);
        assert(s[n - 2] == b[m - 2]);
        assert(s.take(n - 2) == a.push(EqBuild::Operator(op)) + b0);
        assert forall|i: int| 0 <= i < b0.len() && i % 2 == 1 implies !is_low(
            (#[trigger] b0[i]).operator(),
        ) by {
            assert(b0[i] == b[i]);
        }
        lemma_last_low_split(a, op, b0);
    }
}

/// Equal operators group to the left: one more `+` or `-` behind a sequence,
/// or one more `*` or `/` behind a sequence without `+` and `-`, applies to
/// the whole of the sequence.
pub proof fn lemma_left_associative(s: Seq<EqBuild>, op: EqOperator, e: Equation)
    requires
        well_formed(s),
        is_low(op) || last_low(s) < 0,
    ensures
        well_formed(s.push(EqBuild::Operator(op)).push(EqBuild::Equation(e))),
        tree(s.push(EqBuild::Operator(op)).push(EqBuild::Equation(e))) == Equation::node(
            op,
            tree(s),
            e,
        ),
{
    let b = seq![EqBuild::Equation(e)];
    let t = s.push(EqBuild::Operator(op)).push(EqBuild::Equation(e));
    assert(t == s.push(EqBuild::Operator(op)) + b);
    if is_low(op) {
        lemma_precedence(s, op, b);
    } else {
        let n = t.len() as int;
        assert(t.take(n - 2) == s);
        assert forall|i: int| 0 <= i < t.len() implies (#[trigger] t[i]).is_operand() == (i % 2
            == 0) by {
            if i < s.len() {
                assert(t[i] == s[i]);
            }
        }
    }
}

/// The tokens of the product `factors[0] * factors[1] * ...`.
pub open spec fn product_tokens(factors: Seq<i32>) -> Seq<EqBuild>
    decreases factors.len(),
{
    if factors.len() <= 1 {
        seq![EqBuild::Equation(Equation::Num(factors[0]))]
    } else {
        product_tokens(factors.drop_last()).push(EqBuild::Operator(EqOperator::Mul)).push(
            EqBuild::Equation(Equation::Num(factors.last())),
        )
    }
}

/// The tokens of the sum of the products of `terms`, `*` between the
/// numbers of a term and `+` between the terms.
pub open spec fn sum_tokens(terms: Seq<Seq<i32>>) -> Seq<EqBuild>
    decreases terms.len(),
{
    if terms.len() <= 1 {
        product_tokens(terms[0])
    } else {
        sum_tokens(terms.drop_last()).push(EqBuild::Operator(EqOperator::Add)) + product_tokens(
            terms.last(),
        )
    }
}

/// The product of the numbers, as integers.
pub open spec fn product(factors: Seq<i32>) -> int
    decreases factors.len(),
{
    if factors.len() == 0 {
        1
    } else {
        product(factors.drop_last()) * factors.last()
    }
}

/// The sum of the products of the terms, as an integer.
pub open spec fn sum_of_products(terms: Seq<Seq<i32>>) -> int
    decreases terms.len(),
{
    if terms.len() == 0 {
        0
    } else {
        sum_of_products(terms.drop_last()) + product(terms.last())
    }
}

/// Whether the expression holds no division.
pub open spec fn division_free(e: Equation) -> bool
    decreases e,
{
    match e {
        Equation::Num(_) => true,
        Equation::Add(a, b) => division_free(*a) && division_free(*b),
        Equation::Sub(a, b) => division_free(*a) && division_free(*b),
        Equation::Mul(a, b) => division_free(*a) && division_free(*b),
        Equation::Div(_, _) => false,
    }
}

/// The value of an expression over the integers, without any bound.
pub open spec fn exact(e: Equation) -> int
    decreases e,
{
    match e {
        Equation::Num(v) => v as int,
        Equation::Add(a, b) => exact(*a) + exact(*b),
        Equation::Sub(a, b) => exact(*a) - exact(*b),
        Equation::Mul(a, b) => exact(*a) * exact(*b),
        Equation::Div(a, b) => trunc_div(exact(*a), exact(*b)),
    }
}

/// Overflow wraps around: without a division an expression evaluates to its
/// value over the integers reduced to 32 bits, whatever overflows on the
/// way.
pub proof fn lemma_value_wraps_exact(e: Equation)
    requires
        division_free(e),
    ensures
        e.value() == Ok::<i32, ArithmeticError>(wrap(exact(e))),
    decreases e,
{
    match e {
        Equation::Num(v) => {
            lemma_wrap_small(v as int);
        },
        Equation::Add(a, b) => {
            lemma_value_wraps_exact(*a);
            lemma_value_wraps_exact(*b);
            lemma_wrap_add(exact(*a), exact(*b));
        },
        Equation::Sub(a, b) => {
            lemma_value_wraps_exact(*a);
            lemma_value_wraps_exact(*b);
            lemma_wrap_sub(exact(*a), exact(*b));
        },
        Equation::Mul(a, b) => {
            lemma_value_wraps_exact(*a);
            lemma_value_wraps_exact(*b);
            lemma_wrap_mul(exact(*a), exact(*b));
        },
        Equation::Div(_, _) => {},
    }
}

/// A product of numbers is well-formed, holds no `+` or `-`, and chains to
/// a tree without division whose value over the integers is the product.
proof fn lemma_product_tokens(factors: Seq<i32>)
    requires
        factors.len() > 0,
    ensures
        well_formed(product_tokens(factors)),
        forall|i: int|
            0 <= i < product_tokens(factors).len() && i % 2 == 1 ==> !is_low(
                (#[trigger] product_tokens(factors)[i]).operator(),
            ),
        division_free(chain(product_tokens(factors))),
        exact(chain(product_tokens(factors))) == product(factors),
    decreases factors.len(),
{
    let p = product_tokens(factors);
    if factors.len() == 1 {
        assert(product(factors) == factors[0]) by {
            reveal_with_fuel(product, 2);
        }
    } else {
        let init = factors.drop_last();
        let q = product_tokens(init);
        lemma_product_tokens(init);
        let n = p.len() as int;
        assert(p.take(n - 2) == q);
        assert forall|i: int| 0 <= i < p.len() implies (#[trigger] p[i]).is_operand() == (i % 2
            == 0) by {
            if i < q.len() {
                assert(p[i] == q[i]);
            }
        }
        assert forall|i: int| 0 <= i < p.len() && i % 2 == 1 implies !is_low(
            (#[trigger] p[i]).operator(),
        ) by {
            if i < q.len() {
                assert(p[i] == q[i]);
            }
        }
        let l = Equation::Num(factors.last());
        assert(chain(p) == Equation::node(EqOperator::Mul, chain(q), l));
        assert(division_free(l) && exact(l) == factors.last());
    }
}

/// With `+` and `*` alone the value is that of ordinary arithmetic: the sum
/// of the products of the terms, reduced to 32 bits. So it does not depend
/// on how the numbers are grouped, nor on the order in which they are added
/// and multiplied.
pub proof fn lemma_sum_of_products(terms: Seq<Seq<i32>>)
    requires
        terms.len() > 0,
        forall|i: int| 0 <= i < terms.len() ==> (#[trigger] terms[i]).len() > 0,
    ensures
        well_formed(sum_tokens(terms)),
        division_free(tree(sum_tokens(terms))),
        exact(tree(sum_tokens(terms))) == sum_of_products(terms),
        tree(sum_tokens(terms)).value() == Ok::<i32, ArithmeticError>(
            wrap(sum_of_products(terms)),
        ),
    decreases terms.len(),
{
    let last = product_tokens(terms.last());
    lemma_product_tokens(terms.last());
    if terms.len() == 1 {
        lemma_last_low(last);
        assert(sum_of_products(terms) == product(terms[0])) by {
            reveal_with_fuel(sum_of_products, 2);
        }
    } else {
        let init = terms.drop_last();
        assert forall|i: int| 0 <= i < init.len() implies (#[trigger] init[i]).len() > 0 by {
            assert(init[i] == terms[i]);
        }
        lemma_sum_of_products(init);
        lemma_precedence(sum_tokens(init), EqOperator::Add, last);
        assert(tree(sum_tokens(terms)) == Equation::node(
            EqOperator::Add,
            tree(sum_tokens(init)),
            chain(last),
        ));
    }
    lemma_value_wraps_exact(tree(sum_tokens(terms)));
}

/// Whitespace is ignored: texts that are the same without their whitespace
/// have the same tokens, the same tree and the same value.
pub proof fn lemma_same_without_whitespace(a: Seq<char>, b: Seq<char>)
    requires
        strip(a) == strip(b),
    ensures
        tokenize(a) == tokenize(b),
        parsed(a) == parsed(b),
        solved(a) == solved(b),
{
}

/// A whitespace character put anywhere into a text changes neither its
/// tokens nor its tree nor its value.
pub proof fn lemma_whitespace_ignored(text: Seq<char>, i: int, c: char)
    requires
        0 <= i <= text.len(),
        whitespace(c),
    ensures
        tokenize(text.insert(i, c)) == tokenize(text),
        parsed(text.insert(i, c)) == parsed(text),
        solved(text.insert(i, c)) == solved(text),
{
    let keep = |c: char| !whitespace(c);
    let a = text.take(i);
    let b = text.skip(i);
    assert(text == a + b);
    assert(text.insert(i, c) == (a + seq![c]) + b);
    Seq::filter_distributes_over_add(a, b, keep);
    Seq::filter_distributes_over_add(a + seq![c], b, keep);
    Seq::filter_distributes_over_add(a, seq![c], keep);
    assert(seq![c].filter(keep) == Seq::<char>::empty()) by {
        reveal_with_fuel(Seq::filter, 2);
    }
}

/// A text of nothing but whitespace, the empty text among them, is refused
/// as empty.
pub proof fn lemma_blank_is_empty(text: Seq<char>)
    requires
        forall|i: int| 0 <= i < text.len() ==> whitespace(#[trigger] text[i]),
    ensures
        tokenize(text) == Ok::<Seq<EqBuild>, ParseError>(Seq::empty()),
        solved(text) == Err::<i32, SolveError>(SolveError::Parse(ParseError::EmptyExpression)),
    decreases text.len(),
{
    reveal(Seq::filter);
    if text.len() > 0 {
        let rest = text.drop_last();
        assert forall|i: int| 0 <= i < rest.len() implies whitespace(#[trigger] rest[i]) by {
            assert(rest[i] == text[i]);
        }
        lemma_blank_is_empty(rest);
    }
}

/// A character that is neither whitespace, a digit nor an operator makes the
/// text fail as a whole, whatever else it holds.
pub proof fn lemma_unexpected_character(text: Seq<char>, i: int)
    requires
        0 <= i < text.len(),
        !whitespace(text[i]),
        !is_digit(text[i]),
        operator_of(text[i]) is None,
    ensures
        solved(text) == Err::<i32, SolveError>(
            SolveError::Parse(ParseError::UnexpectedCharacter),
        ),
{
    let keep = |c: char| !whitespace(c);
    text.lemma_filter_contains(keep, i);
    let s = strip(text);
    let j = choose|j: int| 0 <= j < s.len() && s[j] == text[i];
    assert(!is_digit(s[j]) && operator_of(s[j]) is None);
}

/// A run of digits is one number, whose value is that of the decimal
/// numeral reduced to 32 bits.
pub proof fn lemma_digits_are_one_number(digits: Seq<char>)
    requires
        digits.len() > 0,
        forall|i: int| 0 <= i < digits.len() ==> is_digit(#[trigger] digits[i]),
    ensures
        lexable(digits),
        lex(digits) == seq![number(digits)],
{
    let n = digits.len() as int;
    lemma_leading_digits_run(digits, n);
    assert(digits.take(n) == digits);
    assert(digits.skip(n) == Seq::<char>::empty());
    assert(lex(digits) == seq![number(digits)] + lex(Seq::<char>::empty()));
}

/// An operator at the start or at the end, and two operators in a row, make
/// the tokens fail as malformed.
pub proof fn lemma_misplaced_operator(tokens: Seq<EqBuild>)
    requires
        tokens.len() > 0,
        tokens.first() is Operator || tokens.last() is Operator || exists|i: int|
            0 <= i < tokens.len() - 1 && (#[trigger] tokens[i]) is Operator && tokens[i
                + 1] is Operator,
    ensures
        reduction(tokens) == Err::<Equation, ParseError>(ParseError::MalformedOperatorPlacement),
{
    if well_formed(tokens) {
        assert(tokens[0].is_operand());
        assert(tokens[tokens.len() - 1].is_operand());
        let i = choose|i: int|
            0 <= i < tokens.len() - 1 && (#[trigger] tokens[i]) is Operator && tokens[i
                + 1] is Operator;
        assert(tokens[i].is_operand() == (i % 2 == 0));
        assert(tokens[i + 1].is_operand() == ((i + 1) % 2 == 0));
    }
}

/// The tokens of a text begin with an operand if the text begins with a
/// digit, and with an operator if not.
proof fn lemma_lex_head(s: Seq<char>)
    requires
        lex(s).len() > 0,
    ensures
        s.len() > 0,
        lex(s)[0].is_operand() == is_digit(s[0]),
{
    if is_digit(s[0]) {
        lemma_leading_digits_bound(s);
    }
}

/// In the tokens of a text no two operands stand in a row: what follows a
/// number is an operator.
pub proof fn lemma_lex_separates_operands(s: Seq<char>, i: int)
    requires
        0 <= i < lex(s).len() - 1,
        lex(s)[i].is_operand(),
    ensures
        !lex(s)[i + 1].is_operand(),
    decreases s.len(),
{
    let t = lex(s);
    lemma_lex_head(s);
    if is_digit(s[0]) {
        lemma_leading_digits_bound(s);
        lemma_leading_digits_maximal(s);
        let n = leading_digits(s) as int;
        let rest = s.skip(n);
        assert(t == seq![number(s.take(n))] + lex(rest));
        if i == 0 {
            lemma_lex_head(rest);
            assert(t[1] == lex(rest)[0]);
        } else {
            assert(t[i] == lex(rest)[i - 1]);
            assert(t[i + 1] == lex(rest)[i]);
            lemma_lex_separates_operands(rest, i - 1);
        }
    } else {
        let rest = s.skip(1);
        assert(t == seq![EqBuild::Operator(operator_of(s[0])->0)] + lex(rest));
        assert(t[i] == lex(rest)[i - 1]);
        assert(t[i + 1] == lex(rest)[i]);
        lemma_lex_separates_operands(rest, i - 1);
    }
}

/// Tokens that begin with an operand and hold neither two operands nor two
/// operators in a row alternate.
proof fn lemma_alternates(t: Seq<EqBuild>, i: int)
    requires
        0 <= i < t.len(),
        t[0].is_operand(),
        forall|k: int| 0 <= k < t.len() - 1 ==> (#[trigger] t[k]).is_operand() != t[k + 1].is_operand(),
    ensures
        t[i].is_operand() == (i % 2 == 0),
    decreases i,
{
    if i > 0 {
        lemma_alternates(t, i - 1);
        assert(t[i - 1].is_operand() != t[i].is_operand());
    }
}

/// The tokens of a text are malformed exactly if an operator is misplaced:
/// at the start, at the end, or behind another operator.
pub proof fn lemma_malformed_is_misplaced_operator(s: Seq<char>)
    requires
        lex(s).len() > 0,
    ensures
        reduction(lex(s)) == Err::<Equation, ParseError>(ParseError::MalformedOperatorPlacement)
            <==> (lex(s).first() is Operator || lex(s).last() is Operator || exists|i: int|
            0 <= i < lex(s).len() - 1 && (#[trigger] lex(s)[i]) is Operator && lex(s)[i
                + 1] is Operator),
{
    let t = lex(s);
    let misplaced = t.first() is Operator || t.last() is Operator || exists|i: int|
        0 <= i < t.len() - 1 && (#[trigger] t[i]) is Operator && t[i + 1] is Operator;
    if misplaced {
        lemma_misplaced_operator(t);
    } else {
        assert forall|k: int| 0 <= k < t.len() - 1 implies (#[trigger] t[k]).is_operand() != t[k
            + 1].is_operand() by {
            if t[k].is_operand() {
                lemma_lex_separates_operands(s, k);
            }
        }
        assert forall|i: int| 0 <= i < t.len() implies (#[trigger] t[i]).is_operand() == (i % 2
            == 0) by {
            lemma_alternates(t, i);
        }
        lemma_alternates(t, t.len() - 1);
    }
}

} // verus!
