use cas::Equation::{Add, Div, Mul, Num, Sub};
use cas::{parse_type, EqBuild, EqOperator, Equation, ParseError};

const HIGH: [EqOperator; 2] = [EqOperator::Mul, EqOperator::Div];
const LOW: [EqOperator; 2] = [EqOperator::Add, EqOperator::Sub];

fn num(v: i32) -> Box<Equation> {
    Box::new(Num(v))
}

fn operand(v: i32) -> EqBuild {
    EqBuild::Equation(Num(v))
}

fn operator(op: EqOperator) -> EqBuild {
    EqBuild::Operator(op)
}

fn tokens(input: &str) -> Vec<EqBuild> {
    Equation::first_compile(input).unwrap()
}

#[test]
fn pass_collapses_its_tier_only() {
    let mut chars = tokens("2+3*4-6/2");
    assert_eq!(parse_type(&mut chars, &HIGH), Ok(()));
    assert_eq!(chars, vec![
        operand(2),
        operator(EqOperator::Add),
        EqBuild::Equation(Mul(num(3), num(4))),
        operator(EqOperator::Sub),
        EqBuild::Equation(Div(num(6), num(2))),
    ]);
    assert_eq!(parse_type(&mut chars, &LOW), Ok(()));
    assert_eq!(chars, vec![EqBuild::Equation(Sub(
        Box::new(Add(num(2), Box::new(Mul(num(3), num(4))))),
        Box::new(Div(num(6), num(2))),
    ))]);
}

#[test]
fn pass_groups_a_chain_to_the_left() {
    let mut chars = tokens("12/4/3*2");
    assert_eq!(parse_type(&mut chars, &HIGH), Ok(()));
    assert_eq!(chars, vec![EqBuild::Equation(Mul(
        Box::new(Div(Box::new(Div(num(12), num(4))), num(3))),
        num(2),
    ))]);
}

#[test]
fn pass_with_an_empty_tier_changes_nothing() {
    let mut chars = tokens("1+2*3");
    assert_eq!(parse_type(&mut chars, &[]), Ok(()));
    assert_eq!(chars, tokens("1+2*3"));
}

#[test]
fn pass_with_one_operator() {
    let mut chars = tokens("1-2+3-4");
    assert_eq!(parse_type(&mut chars, &[EqOperator::Sub]), Ok(()));
    assert_eq!(chars, vec![
        EqBuild::Equation(Sub(num(1), num(2))),
        operator(EqOperator::Add),
        EqBuild::Equation(Sub(num(3), num(4))),
    ]);
}

#[test]
fn pass_leaves_short_sequences() {
    let mut none: Vec<EqBuild> = Vec::new();
    assert_eq!(parse_type(&mut none, &LOW), Ok(()));
    assert!(none.is_empty());

    let mut one = tokens("+");
    assert_eq!(parse_type(&mut one, &LOW), Ok(()));
    assert_eq!(one, tokens("+"));

    let mut two = tokens("+5");
    assert_eq!(parse_type(&mut two, &LOW), Ok(()));
    assert_eq!(two, tokens("+5"));
}

#[test]
fn pass_leaves_both_ends_untouched() {
    let mut chars = tokens("+5+");
    assert_eq!(parse_type(&mut chars, &LOW), Ok(()));
    assert_eq!(chars, tokens("+5+"));

    // the operator in the middle is collapsed, the one in front stays
    let mut chars = tokens("+5+5");
    assert_eq!(parse_type(&mut chars, &LOW), Ok(()));
    assert_eq!(chars, vec![operator(EqOperator::Add), EqBuild::Equation(Add(num(5), num(5)))]);
}

#[test]
fn pass_fails_on_an_operator_without_operand() {
    let mut chars = tokens("5++5");
    assert_eq!(parse_type(&mut chars, &LOW), Err(ParseError::MalformedOperatorPlacement));
    assert_eq!(chars, tokens("5++5"));

    let mut chars = tokens("+-5");
    assert_eq!(parse_type(&mut chars, &LOW), Err(ParseError::MalformedOperatorPlacement));
    assert_eq!(chars, tokens("+-5"));

    // the other tier does not look at these operators
    let mut chars = tokens("5++5");
    assert_eq!(parse_type(&mut chars, &HIGH), Ok(()));
    assert_eq!(chars, tokens("5++5"));
}

#[test]
fn pass_keeps_what_it_collapsed_before_it_failed() {
    let mut chars = tokens("1+2+*3");
    assert_eq!(parse_type(&mut chars, &LOW), Err(ParseError::MalformedOperatorPlacement));
    assert_eq!(chars, vec![
        EqBuild::Equation(Add(num(1), num(2))),
        operator(EqOperator::Add),
        operator(EqOperator::Mul),
        operand(3),
    ]);
}
