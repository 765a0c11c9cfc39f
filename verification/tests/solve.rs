use cas::Equation::{Add, Div, Mul, Num, Sub};
use cas::{ArithmeticError, Cas, EqOperator, Equation, ParseError, SolveError};

fn num(v: i32) -> Box<Equation> {
    Box::new(Num(v))
}

#[test]
fn test_cas() {
    assert_eq!(Cas::solve("2+2").unwrap(), 4);
    assert_eq!(Cas::solve("2+2*3").unwrap(), 8);
    assert_eq!(Cas::solve("2 - 2*3 + 5").unwrap(), 1);
    assert_eq!(Cas::solve("8/2/2").unwrap(), 2);
    assert_eq!(Cas::solve("12/4/3").unwrap(), 1);
    assert_eq!(Cas::solve("2+3+5-3-2*5").unwrap(), -3);
}

#[test]
fn test_equation_eq() {
    // (2 + 2) / 4
    let eq = Div(Box::new(Add(Box::new(Num(2)), Box::new(Num(2)))), Box::new(Num(4)));
    assert_eq!(1, eq.clone().solve().unwrap());

    let eq2 = Mul(Box::new(eq), Box::new(Add(Box::new(Num(3)), Box::new(Num(7)))));
    assert_eq!(10, eq2.clone().solve().unwrap());

    let eq3 = Sub(Box::new(eq2), Box::new(Num(3)));
    assert_eq!(7, eq3.solve().unwrap())
}

#[test]
fn solve_sums_of_products() {
    assert_eq!(Cas::solve("3*2+2"), Ok(8));
    assert_eq!(Cas::solve("2+2*3"), Ok(8));
    assert_eq!(Cas::solve("2*3+4*5"), Ok(26));
    assert_eq!(Cas::solve("4*5+2*3"), Ok(26));
    assert_eq!(Cas::solve("1+2+3+4"), Ok(10));
    assert_eq!(Cas::solve("4+3+2+1"), Ok(10));
    assert_eq!(Cas::solve("2*3*4"), Ok(24));
    assert_eq!(Cas::solve("1+2*3*4+5*6"), Ok(55));
}

#[test]
fn solve_ignores_whitespace() {
    assert_eq!(Cas::solve("2 + 2"), Ok(4));
    assert_eq!(Cas::solve("2+2"), Ok(4));
    assert_eq!(Cas::solve(" 2\t+\n2 "), Ok(4));
    assert_eq!(Cas::solve("1 2 + 3"), Cas::solve("12+3"));
}

#[test]
fn solve_reads_numbers_of_several_digits() {
    assert_eq!(Cas::solve("12+3"), Ok(15));
    assert_eq!(Cas::solve("100*100"), Ok(10000));
    assert_eq!(Cas::solve("1000-1"), Ok(999));
}

#[test]
fn solve_empty() {
    assert_eq!(Cas::solve(""), Err(SolveError::Parse(ParseError::EmptyExpression)));
    assert_eq!(Cas::solve("   "), Err(SolveError::Parse(ParseError::EmptyExpression)));
}

#[test]
fn solve_division_by_zero() {
    let failed = Err(SolveError::Arithmetic(ArithmeticError::DivisionByZero));
    assert_eq!(Cas::solve("5/0"), failed);
    assert_eq!(Cas::solve("0/0"), failed);
    assert_eq!(Cas::solve("1+5/0"), failed);
    assert_eq!(Cas::solve("5/0*0"), failed);
    assert_eq!(Cas::solve("8/4/0"), failed);
    assert_eq!(Cas::solve("7/4294967296"), failed);
    assert_eq!(Cas::solve("0/5"), Ok(0));
}

#[test]
fn solve_malformed() {
    let failed = Err(SolveError::Parse(ParseError::MalformedOperatorPlacement));
    assert_eq!(Cas::solve("5+"), failed);
    assert_eq!(Cas::solve("+5"), failed);
    assert_eq!(Cas::solve("5++5"), failed);
    // the text is refused before anything is evaluated
    assert_eq!(Cas::solve("1/0+"), failed);
}

#[test]
fn solve_unexpected_character() {
    let failed = Err(SolveError::Parse(ParseError::UnexpectedCharacter));
    assert_eq!(Cas::solve("5&3"), failed);
    assert_eq!(Cas::solve("1/0 ?"), failed);
}

#[test]
fn division_truncates_toward_zero() {
    assert_eq!(Cas::solve("7/2"), Ok(3));
    assert_eq!(Cas::solve("0-7/2"), Ok(-3));
    assert_eq!(Cas::solve("1-8"), Ok(-7));
    assert_eq!(EqOperator::Div.eval(-7, 2), Ok(-3));
    assert_eq!(EqOperator::Div.eval(7, -2), Ok(-3));
    assert_eq!(EqOperator::Div.eval(-7, -2), Ok(3));
    assert_eq!(EqOperator::Div.eval(-1, 2), Ok(0));
    assert_eq!(EqOperator::Div.eval(1, -2), Ok(0));
    assert_eq!(EqOperator::Div.eval(i32::MIN, 2), Ok(-1073741824));
    assert_eq!(EqOperator::Div.eval(i32::MAX, -1), Ok(-i32::MAX));
    assert_eq!(Div(Box::new(Sub(num(1), num(8))), num(2)).solve(), Ok(-3));
}

#[test]
fn arithmetic_wraps_around() {
    assert_eq!(EqOperator::Add.eval(i32::MAX, 1), Ok(i32::MIN));
    assert_eq!(EqOperator::Add.eval(i32::MIN, -1), Ok(i32::MAX));
    assert_eq!(EqOperator::Sub.eval(i32::MIN, 1), Ok(i32::MAX));
    assert_eq!(EqOperator::Sub.eval(0, i32::MIN), Ok(i32::MIN));
    assert_eq!(EqOperator::Mul.eval(65536, 65536), Ok(0));
    assert_eq!(EqOperator::Mul.eval(i32::MAX, 2), Ok(-2));
    assert_eq!(EqOperator::Mul.eval(i32::MIN, -1), Ok(i32::MIN));
    assert_eq!(EqOperator::Div.eval(i32::MIN, -1), Ok(i32::MIN));
    assert_eq!(Cas::solve("2147483647+1"), Ok(i32::MIN));
    assert_eq!(Cas::solve("65536*65536"), Ok(0));
    assert_eq!(Cas::solve("0-2147483647-2"), Ok(i32::MAX));
    assert_eq!(Cas::solve("2147483648/2"), Ok(-1073741824));
    // the remainder of the sum of products by 2^32, whatever wraps on the way
    assert_eq!(Cas::solve("65536*65536+7"), Ok(7));
    assert_eq!(Cas::solve("2147483647*2+3*3"), Ok(7));
}

#[test]
fn operators_on_small_numbers() {
    assert_eq!(EqOperator::Add.eval(2, 3), Ok(5));
    assert_eq!(EqOperator::Sub.eval(2, 3), Ok(-1));
    assert_eq!(EqOperator::Mul.eval(2, 3), Ok(6));
    assert_eq!(EqOperator::Div.eval(6, 3), Ok(2));
    assert_eq!(EqOperator::Div.eval(6, 0), Err(ArithmeticError::DivisionByZero));
    assert_eq!(EqOperator::Div.eval(0, 0), Err(ArithmeticError::DivisionByZero));
}

#[test]
fn evaluation_of_trees() {
    assert_eq!(Num(5).solve(), Ok(5));
    assert_eq!(Num(-5).solve(), Ok(-5));
    assert_eq!(Sub(num(2), num(5)).solve(), Ok(-3));
    // subtraction and division are not commutative: the left side comes first
    assert_eq!(Sub(num(5), num(2)).solve(), Ok(3));
    assert_eq!(Div(num(8), num(2)).solve(), Ok(4));
    assert_eq!(Div(num(2), num(8)).solve(), Ok(0));
    // 8/(2/2) is not 8/2/2
    assert_eq!(Div(num(8), Box::new(Div(num(2), num(2)))).solve(), Ok(8));
    assert_eq!(Div(Box::new(Div(num(8), num(2))), num(2)).solve(), Ok(2));
}

#[test]
fn evaluation_fails_on_a_zero_divisor_anywhere() {
    let zero = Sub(num(1), num(1));
    assert_eq!(Div(num(1), Box::new(zero.clone())).solve(), Err(ArithmeticError::DivisionByZero));
    let inner = Div(num(1), Box::new(zero));
    assert_eq!(Add(num(1), Box::new(inner.clone())).solve(), Err(ArithmeticError::DivisionByZero));
    assert_eq!(Mul(Box::new(inner), num(0)).solve(), Err(ArithmeticError::DivisionByZero));
}

#[test]
fn combine_builds_the_node_of_the_operator() {
    assert_eq!(Equation::combine(Num(1), Num(2), EqOperator::Add), Add(num(1), num(2)));
    assert_eq!(Equation::combine(Num(1), Num(2), EqOperator::Sub), Sub(num(1), num(2)));
    assert_eq!(Equation::combine(Num(1), Num(2), EqOperator::Mul), Mul(num(1), num(2)));
    assert_eq!(Equation::combine(Num(1), Num(2), EqOperator::Div), Div(num(1), num(2)));
}

#[test]
fn clone_is_equal() {
    let eq = Sub(Box::new(Mul(num(3), num(2))), Box::new(Div(num(4), num(2))));
    assert_eq!(eq.clone(), eq);
}
