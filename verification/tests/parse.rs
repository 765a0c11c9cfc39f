use cas::Equation::{Add, Div, Mul, Num, Sub};
use cas::{reduce, EqBuild, EqOperator, Equation, ParseError};

fn num(v: i32) -> Box<Equation> {
    Box::new(Num(v))
}

fn operand(v: i32) -> EqBuild {
    EqBuild::Equation(Num(v))
}

#[test]
fn test_parse() {
    assert_eq!(Equation::parse("2+2").unwrap(), Add(Box::new(Num(2)), Box::new(Num(2))));
    assert_eq!(
        Equation::parse("3*2+2").unwrap(),
        Add(Box::new(Mul(Box::new(Num(3)), Box::new(Num(2)))), Box::new(Num(2)))
    );
    assert_eq!(
        Equation::parse("3*2-2").unwrap(),
        Sub(Box::new(Mul(Box::new(Num(3)), Box::new(Num(2)))), Box::new(Num(2)))
    );
}

#[test]
fn parse_single_number() {
    assert_eq!(Equation::parse("7"), Ok(Num(7)));
    assert_eq!(Equation::parse("  0042 "), Ok(Num(42)));
}

#[test]
fn parse_puts_the_last_low_operator_at_the_root() {
    // 2 - 2*3 + 5  is  (2 - (2*3)) + 5
    assert_eq!(
        Equation::parse("2 - 2*3 + 5"),
        Ok(Add(Box::new(Sub(num(2), Box::new(Mul(num(2), num(3))))), num(5)))
    );
    // 1 + 2*3/4  is  1 + ((2*3)/4)
    assert_eq!(
        Equation::parse("1+2*3/4"),
        Ok(Add(num(1), Box::new(Div(Box::new(Mul(num(2), num(3))), num(4)))))
    );
}

#[test]
fn parse_groups_equal_operators_to_the_left() {
    assert_eq!(
        Equation::parse("8/2/2"),
        Ok(Div(Box::new(Div(num(8), num(2))), num(2)))
    );
    assert_eq!(
        Equation::parse("9-3-2"),
        Ok(Sub(Box::new(Sub(num(9), num(3))), num(2)))
    );
    assert_eq!(
        Equation::parse("2*3*4"),
        Ok(Mul(Box::new(Mul(num(2), num(3))), num(4)))
    );
}

#[test]
fn parse_reports_the_first_stage_that_fails() {
    assert_eq!(Equation::parse(""), Err(ParseError::EmptyExpression));
    assert_eq!(Equation::parse(" \t\n"), Err(ParseError::EmptyExpression));
    assert_eq!(Equation::parse("5&3"), Err(ParseError::UnexpectedCharacter));
    assert_eq!(Equation::parse("(1+2)"), Err(ParseError::UnexpectedCharacter));
    assert_eq!(Equation::parse("1.5"), Err(ParseError::UnexpectedCharacter));
    // an unexpected character wins over a misplaced operator
    assert_eq!(Equation::parse("+ x"), Err(ParseError::UnexpectedCharacter));
    assert_eq!(Equation::parse("5+"), Err(ParseError::MalformedOperatorPlacement));
    assert_eq!(Equation::parse("+5"), Err(ParseError::MalformedOperatorPlacement));
    assert_eq!(Equation::parse("5++5"), Err(ParseError::MalformedOperatorPlacement));
    assert_eq!(Equation::parse("-"), Err(ParseError::MalformedOperatorPlacement));
    assert_eq!(Equation::parse("-5"), Err(ParseError::MalformedOperatorPlacement));
    assert_eq!(Equation::parse("2*-3"), Err(ParseError::MalformedOperatorPlacement));
    assert_eq!(Equation::parse("*2+3"), Err(ParseError::MalformedOperatorPlacement));
    assert_eq!(Equation::parse("2+3*"), Err(ParseError::MalformedOperatorPlacement));
    assert_eq!(Equation::parse("+5+5"), Err(ParseError::MalformedOperatorPlacement));
}

#[test]
fn reduce_empty() {
    assert_eq!(reduce(Vec::new()), Err(ParseError::EmptyExpression));
}

#[test]
fn reduce_single_operand() {
    assert_eq!(reduce(vec![operand(3)]), Ok(Num(3)));
}

#[test]
fn reduce_single_operator() {
    assert_eq!(
        reduce(vec![EqBuild::Operator(EqOperator::Mul)]),
        Err(ParseError::MalformedOperatorPlacement)
    );
}

#[test]
fn reduce_builds_the_tree() {
    let tokens = vec![
        operand(2),
        EqBuild::Operator(EqOperator::Add),
        operand(3),
        EqBuild::Operator(EqOperator::Mul),
        operand(4),
        EqBuild::Operator(EqOperator::Sub),
        operand(5),
    ];
    assert_eq!(
        reduce(tokens),
        Ok(Sub(Box::new(Add(num(2), Box::new(Mul(num(3), num(4))))), num(5)))
    );
}

#[test]
fn reduce_takes_combined_operands() {
    // an operand may already be a tree
    let tokens = vec![
        EqBuild::Equation(Add(num(1), num(2))),
        EqBuild::Operator(EqOperator::Mul),
        operand(3),
    ];
    assert_eq!(reduce(tokens), Ok(Mul(Box::new(Add(num(1), num(2))), num(3))));
}

#[test]
fn reduce_refuses_operands_in_a_row() {
    assert_eq!(
        reduce(vec![operand(1), operand(2)]),
        Err(ParseError::MalformedOperatorPlacement)
    );
    assert_eq!(
        reduce(vec![operand(1), operand(2), EqBuild::Operator(EqOperator::Add), operand(3)]),
        Err(ParseError::MalformedOperatorPlacement)
    );
    assert_eq!(
        reduce(vec![operand(1), EqBuild::Operator(EqOperator::Add), operand(2), operand(3)]),
        Err(ParseError::MalformedOperatorPlacement)
    );
    assert_eq!(
        reduce(vec![operand(1), operand(2), operand(3)]),
        Err(ParseError::MalformedOperatorPlacement)
    );
}

#[test]
fn reduce_refuses_operators_in_a_row() {
    assert_eq!(
        reduce(vec![
            operand(1),
            EqBuild::Operator(EqOperator::Add),
            EqBuild::Operator(EqOperator::Mul),
            operand(3)
        ]),
        Err(ParseError::MalformedOperatorPlacement)
    );
    assert_eq!(
        reduce(vec![
            EqBuild::Operator(EqOperator::Add),
            EqBuild::Operator(EqOperator::Sub),
            operand(5)
        ]),
        Err(ParseError::MalformedOperatorPlacement)
    );
}
