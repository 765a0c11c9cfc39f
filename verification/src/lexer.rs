//! Turning text into tokens.
//!
//! Whitespace vanishes before anything else is looked at, so digits on both
//! sides of a blank form one number. A run of digits is one operand; each of
//! `* + - /` is one operator; any other character is refused. A number that
//! does not fit in 32 bits wraps around.

use crate::arith::{lemma_wrap_add, lemma_wrap_mul, lemma_wrap_small, lemma_wrapping_ops, wrap};
use crate::expr::{EqOperator, Equation};
use crate::token::{EqBuild, ParseError};
use vstd::prelude::*;

verus! {

/// Whether `char::is_whitespace` holds of `c`.
pub uninterp spec fn whitespace(c: char) -> bool;

/// Believed, not proved: `char::is_whitespace` of the standard library is a
/// function of the character alone. It tells whether Unicode classes the
/// character as `White_Space`; which characters those are is not stated
/// here.
pub assume_specification[ char::is_whitespace ](c: char) -> (b: bool)
    ensures
        b == whitespace(c),
;

/// The text without its whitespace characters.
pub open spec fn strip(s: Seq<char>) -> Seq<char> {
    s.filter(|c: char| !whitespace(c))
}

/// Whether `c` is one of the ten decimal digits.
pub open spec fn is_digit(c: char) -> bool {
    '0' <= c && c <= '9'
}

/// The number that a decimal digit stands for.
pub open spec fn digit_value(c: char) -> int
    recommends
        is_digit(c),
{
    c as int - '0' as int
}

/// The operator that a character stands for, if it is one of `* + - /`.
pub open spec fn operator_of(c: char) -> Option<EqOperator> {
    if c == '*' {
        Some(EqOperator::Mul)
    } else if c == '+' {
        Some(EqOperator::Add)
    } else if c == '-' {
        Some(EqOperator::Sub)
    } else if c == '/' {
        Some(EqOperator::Div)
    } else {
        None
    }
}

/// Whether every character is a digit or an operator.
pub open spec fn lexable(s: Seq<char>) -> bool {
    forall|i: int| 0 <= i < s.len() ==> is_digit(#[trigger] s[i]) || operator_of(s[i]) is Some
}

/// How many digits `s` begins with.
pub open spec fn leading_digits(s: Seq<char>) -> nat
    decreases s.len(),
{
    if s.len() > 0 && is_digit(s[0]) {
        1 + leading_digits(s.skip(1))
    } else {
        0
    }
}

/// The leading digits are part of the text.
pub proof fn lemma_leading_digits_bound(s: Seq<char>)
    ensures
        leading_digits(s) <= s.len(),
        s.len() > 0 && is_digit(s[0]) ==> leading_digits(s) >= 1,
    decreases s.len(),
{
    if s.len() > 0 && is_digit(s[0]) {
        lemma_leading_digits_bound(s.skip(1));
    }
}

/// A run of `k` digits that ends the text or is followed by something else
/// is the whole of the leading digits.
pub proof fn lemma_leading_digits_run(s: Seq<char>, k: int)
    requires
        0 <= k <= s.len(),
        forall|i: int| 0 <= i < k ==> is_digit(#[trigger] s[i]),
        k == s.len() || !is_digit(s[k]),
    ensures
        leading_digits(s) == k,
    decreases k,
{
    if k > 0 {
        let t = s.skip(1);
        assert forall|i: int| 0 <= i < k - 1 implies is_digit(#[trigger] t[i]) by {
            assert(t[i] == s[i + 1]);
        }
        lemma_leading_digits_run(t, k - 1);
    }
}

/// The leading digits end with the text or before something else.
pub proof fn lemma_leading_digits_maximal(s: Seq<char>)
    ensures
        leading_digits(s) == s.len() || !is_digit(s[leading_digits(s) as int]),
    decreases s.len(),
{
    if s.len() > 0 && is_digit(s[0]) {
        let t = s.skip(1);
        lemma_leading_digits_maximal(t);
        lemma_leading_digits_bound(t);
        if leading_digits(t) < t.len() {
            assert(t[leading_digits(t) as int] == s[leading_digits(s) as int]);
        }
    }
}

/// Each of the leading digits is a digit.
pub proof fn lemma_leading_digits_are_digits(s: Seq<char>, i: int)
    requires
        0 <= i < leading_digits(s),
    ensures
        i < s.len(),
        is_digit(s[i]),
    decreases s.len(),
{
    if i > 0 {
        lemma_leading_digits_are_digits(s.skip(1), i - 1);
    }
}

/// The number that a string of digits denotes in base ten.
pub open spec fn decimal(s: Seq<char>) -> int
    decreases s.len(),
{
    if s.len() == 0 {
        0
    } else {
        decimal(s.drop_last()) * 10 + digit_value(s.last())
    }
}

/// The operand for a string of digits.
pub open spec fn number(digits: Seq<char>) -> EqBuild {
    EqBuild::Equation(Equation::Num(wrap(decimal(digits))))
}

/// The tokens of a text of digits and operators: each maximal run of digits
/// is one number, each operator character one operator.
pub open spec fn lex(s: Seq<char>) -> Seq<EqBuild>
    decreases s.len(),
{
    if s.len() == 0 {
        Seq::empty()
    } else if is_digit(s[0]) {
        let n = leading_digits(s) as int;
        proof {
            lemma_leading_digits_bound(s);
        }
        seq![number(s.take(n))] + lex(s.skip(n))
    } else {
        match operator_of(s[0]) {
            Some(op) => seq![EqBuild::Operator(op)] + lex(s.skip(1)),
            None => Seq::empty(),
        }
    }
}

/// The tokens of a text, or why it has none.
pub open spec fn tokenize(text: Seq<char>) -> Result<Seq<EqBuild>, ParseError> {
    let s = strip(text);
    if lexable(s) {
        Ok(lex(s))
    } else {
        Err(ParseError::UnexpectedCharacter)
    }
}

/// The operator that `c` stands for, if any.
fn operator_from(c: char) -> (res: Option<EqOperator>)
    ensures
        res == operator_of(c),
{
    match c {
        '*' => Some(EqOperator::Mul),
        '+' => Some(EqOperator::Add),
        '-' => Some(EqOperator::Sub),
        '/' => Some(EqOperator::Div),
        _ => None,
    }
}

/// The value of `c` as a decimal digit, if it is one.
fn digit_from(c: char) -> (res: Option<i32>)
    ensures
        match res {
            Some(d) => is_digit(c) && d == digit_value(c),
            None => !is_digit(c),
        },
{
    if '0' <= c && c <= '9' {
        Some((c as u32 - '0' as u32) as i32)
    } else {
        None
    }
}

/// Appending a digit to a string of digits multiplies its reduced value by
/// ten and adds the digit, all in 32 bits.
pub proof fn lemma_decimal_push(value: int, digit: int)
    requires
        0 <= digit <= 9,
    ensures
        wrap(wrap(value) * 10 + digit) == wrap(value * 10 + digit),
{
    lemma_wrap_small(10);
    lemma_wrap_small(digit);
    lemma_wrap_mul(value, 10);
    lemma_wrap_add(wrap(value) * 10, digit);
    lemma_wrap_add(value * 10, digit);
}

/// The value of a number with one more digit behind it.
fn append_digit(value: i32, digit: i32) -> (res: i32)
    requires
        0 <= digit <= 9,
    ensures
        res == wrap(value * 10 + digit),
{
    let tens = value.wrapping_mul(10);
    proof {
        lemma_wrapping_ops(value, 10);
        lemma_wrapping_ops(tens, digit);
        lemma_wrap_small(digit as int);
        lemma_wrap_add(value * 10, digit as int);
    }
    tens.wrapping_add(digit)
}

/// Reads the number that starts at `start`: returns where its digits end
/// and its value.
fn read_number(chars: &[char], start: usize) -> (res: (usize, i32))
    requires
        start < chars.len(),
        is_digit(chars@[start as int]),
    ensures
        start < res.0 <= chars.len(),
        res.0 - start == leading_digits(chars@.skip(start as int)),
        res.1 == wrap(decimal(chars@.subrange(start as int, res.0 as int))),
{
    let mut value: i32 = 0;
    let mut end: usize = start;
    loop
        invariant
            start <= end <= chars.len(),
            start < chars.len(),
            is_digit(chars@[start as int]),
            forall|k: int| start <= k < end ==> is_digit(#[trigger] chars@[k]),
            value == wrap(decimal(chars@.subrange(start as int, end as int))),
        ensures
            start < end <= chars.len(),
            forall|k: int| start <= k < end ==> is_digit(#[trigger] chars@[k]),
            end == chars.len() || !is_digit(chars@[end as int]),
            value == wrap(decimal(chars@.subrange(start as int, end as int))),
        decreases chars.len() - end,
    {
        if end >= chars.len() {
            break ;
        }
        let digit = match digit_from(chars[end]) {
            Some(d) => d,
            None => { break ; },
        };
        proof {
            let run = chars@.subrange(start as int, end + 1);
            assert(run.drop_last() == chars@.subrange(start as int, end as int));
            assert(run.last() == chars@[end as int]);
            lemma_decimal_push(decimal(run.drop_last()), digit as int);
        }
        value = append_digit(value, digit);
        end += 1;
    }
    proof {
        let rest = chars@.skip(start as int);
        assert forall|k: int| 0 <= k < end - start implies is_digit(#[trigger] rest[k]) by {
            assert(rest[k] == chars@[start + k]);
        }
        lemma_leading_digits_run(rest, end - start);
    }
    (end, value)
}

/// Splits a text without whitespace into tokens: every run of digits gives
/// one number, every operator character one operator. Fails with
/// `UnexpectedCharacter` exactly if some character is neither. The result
/// may be empty.
pub fn lex_chars(chars: &[char]) -> (res: Result<Vec<EqBuild>, ParseError>)
    ensures
        match res {
            Ok(tokens) => lexable(chars@) && tokens@ == lex(chars@),
            Err(e) => !lexable(chars@) && e == ParseError::UnexpectedCharacter,
        },
{
    let mut res: Vec<EqBuild> = Vec::new();
    let mut i: usize = 0;
    proof {
        assert(chars@.skip(0) == chars@);
    }
    while i < chars.len()
        invariant
            i <= chars.len(),
            forall|k: int|
                0 <= k < i ==> is_digit(#[trigger] chars@[k]) || operator_of(chars@[k]) is Some,
            res@ + lex(chars@.skip(i as int)) == lex(chars@),
        decreases chars.len() - i,
    {
        let c = chars[i];
        let ghost rest = chars@.skip(i as int);
        assert(rest[0] == c);
        if let Some(_) = digit_from(c) {
            let (end, value) = read_number(chars, i);
            proof {
                let n = end - i;
                assert(rest.take(n) == chars@.subrange(i as int, end as int));
                assert(rest.skip(n) == chars@.skip(end as int));
                assert forall|k: int| i <= k < end implies is_digit(#[trigger] chars@[k]) by {
                    lemma_leading_digits_are_digits(rest, k - i);
                    assert(rest[k - i] == chars@[k]);
                }
                assert(res@.push(number(rest.take(n))) + lex(rest.skip(n)) == res@ + lex(rest));
            }
            res.push(EqBuild::Equation(Equation::Num(value)));
            i = end;
        } else {
            match operator_from(c) {
                Some(op) => {
                    proof {
                        assert(rest.skip(1) == chars@.skip(i + 1));
                        assert(res@.push(EqBuild::Operator(op)) + lex(rest.skip(1)) == res@ + lex(
                            rest,
                        ));
                    }
                    res.push(EqBuild::Operator(op));
                    i += 1;
                },
                None => {
                    return Err(ParseError::UnexpectedCharacter);
                },
            }
        }
    }
    Ok(res)
}

/// The characters of `input` that are not whitespace, in order.
pub fn strip_whitespace(input: &str) -> (out: Vec<char>)
    ensures
        out@ == strip(input@),
{
    broadcast use vstd::string::group_string_axioms;

    let mut out: Vec<char> = Vec::new();
    proof {
        reveal(Seq::filter);
    }
    for c in it: input.chars()
        invariant
            it.seq() == input@,
            out@ == strip(input@.take(it.index())),
    {
        proof {
            reveal(Seq::filter);
            let i = it.index();
            assert(input@.take(i + 1).drop_last() == input@.take(i));
        }
        if !c.is_whitespace() {
            out.push(c);
        }
    }
    proof {
        assert(input@.take(input@.len() as int) == input@);
    }
    out
}

impl Equation {
    /// Splits `input` into tokens. Whitespace is dropped first; then every
    /// run of digits gives one number and every operator character one
    /// operator. Fails with `UnexpectedCharacter` exactly if some character
    /// is neither whitespace, a digit nor an operator. The result may be
    /// empty.
    pub fn first_compile(input: &str) -> (res: Result<Vec<EqBuild>, ParseError>)
        ensures
            match res {
                Ok(tokens) => tokenize(input@) == Ok::<Seq<EqBuild>, ParseError>(tokens@),
                Err(e) => tokenize(input@) == Err::<Seq<EqBuild>, ParseError>(e),
            },
    {
        let chars = strip_whitespace(input);
        lex_chars(chars.as_slice())
    }
}

} // verus!
