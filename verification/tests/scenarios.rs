use calculator::{parse_expr, parse_statement};
use calculator::{Expr, ParseError, Statement};

fn lit(n: i32) -> Box<Expr> {
    Box::new(Expr::Int(n))
}

fn var(name: &str) -> Box<Expr> {
    Box::new(Expr::Var(name.to_string()))
}

fn eval(e: &Expr) -> i32 {
    match e {
        Expr::Int(n) => *n,
        Expr::Add(l, r) => eval(l) + eval(r),
        Expr::Sub(l, r) => eval(l) - eval(r),
        Expr::Mul(l, r) => eval(l) * eval(r),
        Expr::Div(l, r) => eval(l) / eval(r),
        Expr::Var(name) => panic!("no value for {}", name),
    }
}

#[test]
fn subtraction_associates_to_the_left() {
    let (rest, e) = parse_expr("1-2-3").unwrap();
    assert_eq!(rest, "");
    assert_eq!(e, Expr::Sub(Box::new(Expr::Sub(lit(1), lit(2))), lit(3)));
    assert_eq!(eval(&e), -4);
}

#[test]
fn multiplication_binds_tighter_than_addition() {
    let (rest, e) = parse_expr("1+2*3").unwrap();
    assert_eq!(rest, "");
    assert_eq!(e, Expr::Add(lit(1), Box::new(Expr::Mul(lit(2), lit(3)))));
    assert_eq!(eval(&e), 7);
}

#[test]
fn parentheses_override_precedence() {
    let (rest, e) = parse_expr("(1+2)*3").unwrap();
    assert_eq!(rest, "");
    assert_eq!(e, Expr::Mul(Box::new(Expr::Add(lit(1), lit(2))), lit(3)));
    assert_eq!(eval(&e), 9);
}

#[test]
fn white_space_between_tokens_changes_nothing() {
    let (_, spaced) = parse_expr("  1  +  2  ").unwrap();
    let (_, tight) = parse_expr("1+2").unwrap();
    assert_eq!(spaced, tight);
    assert_eq!(tight, Expr::Add(lit(1), lit(2)));
}

#[test]
fn name_then_equals_is_an_assignment() {
    let (rest, s) = parse_statement("x=5").unwrap();
    assert_eq!(rest, "");
    assert_eq!(s, Statement::Assign("x".to_string(), Expr::Int(5)));
}

#[test]
fn name_then_operator_is_an_expression() {
    let (rest, s) = parse_statement("x+5").unwrap();
    assert_eq!(rest, "");
    assert_eq!(s, Statement::Expr(Expr::Add(var("x"), lit(5))));
}

#[test]
fn literal_beyond_i32_is_an_invalid_sequence() {
    assert_eq!(parse_expr("2147483648"), Err(ParseError::InvalidSequence("2147483648")));
    assert_eq!(parse_statement("1 + 99999999999"), Err(ParseError::InvalidSequence("99999999999")));
    assert_eq!(parse_expr("2147483647"), Ok(("", Expr::Int(2147483647))));
}

#[test]
fn unterminated_parenthesis_is_an_error() {
    assert_eq!(parse_expr("(1+2"), Err(ParseError::Empty));
    assert_eq!(parse_statement("(1+2"), Err(ParseError::Empty));
    assert_eq!(parse_expr("(1+2]"), Err(ParseError::InvalidChar(']')));
}

#[test]
fn empty_input_is_empty() {
    assert_eq!(parse_expr(""), Err(ParseError::Empty));
    assert_eq!(parse_statement(""), Err(ParseError::Empty));
    assert_eq!(parse_statement("   "), Err(ParseError::Empty));
}
